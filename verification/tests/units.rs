//! The pieces in isolation: exact rationals, the optimizer, the compiler,
//! the lexer and the overload patterns.

use localc::ast::{Expr, Operator, Value};
use localc::error::Error;
use localc::num::Num;
use localc::optimizer::optimize;
use localc::overload::Overload;

fn parts(q: &Num) -> (i64, i64) {
    (q.numerator(), q.denominator())
}

fn whole(n: i64) -> Num {
    Num::from_int(n)
}

#[test]
fn rational_arithmetic_is_exact() {
    let half = Num::new(1, 2).unwrap();
    let third = Num::new(1, 3).unwrap();
    assert_eq!(parts(&half.checked_add(&third).unwrap()), (5, 6));
    assert_eq!(parts(&half.checked_sub(&third).unwrap()), (1, 6));
    assert_eq!(parts(&half.checked_mul(&third).unwrap()), (1, 6));
    assert_eq!(parts(&half.checked_div(&third).unwrap()), (3, 2));
    assert_eq!(parts(&Num::new(10, 4).unwrap()), (5, 2));
    assert_eq!(parts(&Num::new(3, -6).unwrap()), (-1, 2));
    assert!(matches!(Num::new(1, 0), Err(Error::DivisionByZero)));
    assert!(matches!(whole(1).checked_div(&whole(0)), Err(Error::DivisionByZero)));
}

#[test]
fn rational_remainder_truncates_toward_zero() {
    assert_eq!(parts(&whole(9).checked_rem(&whole(2)).unwrap()), (1, 1));
    assert_eq!(parts(&whole(-9).checked_rem(&whole(2)).unwrap()), (-1, 1));
    assert_eq!(parts(&whole(9).checked_rem(&whole(-2)).unwrap()), (1, 1));
    let half = Num::new(1, 2).unwrap();
    let fivehalves = Num::new(5, 2).unwrap();
    assert_eq!(parts(&fivehalves.checked_rem(&whole(1)).unwrap()), (1, 2));
    assert_eq!(parts(&half.checked_rem(&half).unwrap()), (0, 1));
}

#[test]
fn rational_powers_and_roots() {
    assert_eq!(parts(&whole(10).checked_pow(&whole(3)).unwrap()), (1000, 1));
    assert_eq!(parts(&whole(2).checked_pow(&whole(-2)).unwrap()), (1, 4));
    let half = Num::new(1, 2).unwrap();
    assert_eq!(parts(&whole(4).checked_pow(&half).unwrap()), (2, 1));
    let third = Num::new(1, 3).unwrap();
    assert_eq!(parts(&whole(27).checked_pow(&third).unwrap()), (3, 1));
    assert!(matches!(whole(2).checked_pow(&half), Err(Error::Inexact)));
    assert!(matches!(whole(0).checked_pow(&whole(-1)), Err(Error::DivisionByZero)));
    let overflow = i64::MAX;
    assert!(matches!(Num::from_int(overflow).checked_pow(&whole(3)), Err(Error::NumericOverflow)));
}

#[test]
fn rational_logarithms() {
    assert_eq!(parts(&whole(1000).checked_log(&whole(10)).unwrap()), (3, 1));
    assert_eq!(parts(&whole(8).checked_log(&whole(2)).unwrap()), (3, 1));
    assert_eq!(parts(&whole(1).checked_log(&whole(7)).unwrap()), (0, 1));
    let eighth = Num::new(1, 8).unwrap();
    assert_eq!(parts(&eighth.checked_log(&whole(2)).unwrap()), (-3, 1));
    assert!(matches!(whole(7).checked_log(&whole(2)), Err(Error::Inexact)));
}

#[test]
fn decimal_literals_are_exact() {
    assert_eq!(parts(&Num::from_decimal("42").unwrap()), (42, 1));
    assert_eq!(parts(&Num::from_decimal("1.5").unwrap()), (3, 2));
    assert_eq!(parts(&Num::from_decimal("0.25").unwrap()), (1, 4));
    assert_eq!(parts(&Num::from_decimal("10.").unwrap()), (10, 1));
    assert!(Num::from_decimal("").is_none());
    assert!(Num::from_decimal(".").is_none());
    assert!(Num::from_decimal("1.2.3").is_none());
    assert!(Num::from_decimal("12a").is_none());
    assert!(Num::from_decimal("99999999999999999999").is_none());
}

fn lit(n: i64) -> Expr {
    Expr::Value(Value::Numeric(whole(n)))
}

fn logical(b: bool) -> Expr {
    Expr::Value(Value::Logical(b))
}

fn comp(op: Operator, l: Expr, r: Expr) -> Expr {
    Expr::Comp(op, Box::new(l), Box::new(r))
}

#[test]
fn optimizer_folds_constants() {
    let e = comp(Operator::Add, lit(1), comp(Operator::Mul, lit(4), lit(5)));
    match optimize(&e) {
        Expr::Value(Value::Numeric(q)) => assert_eq!(parts(&q), (21, 1)),
        other => panic!("expected a folded constant, got {other:?}"),
    }
}

#[test]
fn optimizer_is_idempotent_on_samples() {
    // The general law is proved; this pins one concrete instance.
    let unknown = Expr::Func(String::from("g"), Some(vec![lit(1)]));
    let e = comp(Operator::Add, comp(Operator::Mul, lit(2), lit(3)), unknown);
    let once = optimize(&e);
    let twice = optimize(&once);
    assert_eq!(format!("{once:?}"), format!("{twice:?}"));
}

#[test]
fn optimizer_short_circuits_unknown_calls() {
    // The right side calls a name that exists nowhere; folding must not
    // need it.
    let unknown = Expr::Func(String::from("unknown_fn"), Some(vec![]));
    let e = comp(Operator::And, logical(false), unknown);
    assert!(matches!(optimize(&e), Expr::Value(Value::Logical(false))));
    let unknown2 = Expr::Func(String::from("unknown_fn"), Some(vec![]));
    let e2 = comp(Operator::Or, logical(true), unknown2);
    assert!(matches!(optimize(&e2), Expr::Value(Value::Logical(true))));
}

#[test]
fn optimizer_annihilates_zero_products() {
    let unknown = Expr::Ref(String::from("x"));
    let e = comp(Operator::Mul, lit(0), unknown);
    match optimize(&e) {
        Expr::Value(Value::Numeric(q)) => assert_eq!(parts(&q), (0, 1)),
        other => panic!("expected zero, got {other:?}"),
    }
}

#[test]
fn optimizer_keeps_division_faults_for_runtime() {
    let e = comp(Operator::Div, lit(18), lit(0));
    assert!(matches!(optimize(&e), Expr::Comp(Operator::Div, _, _)));
}

#[test]
fn compiler_refuses_nested_assignment() {
    let store = comp(Operator::Store, Expr::Ref(String::from("x")), lit(1));
    let e = comp(Operator::Add, lit(1), store);
    assert!(matches!(localc::compiler::compile(&e), Err(Error::CompileError(_))));
    let toplevel = comp(Operator::Store, Expr::Ref(String::from("x")), lit(1));
    assert!(localc::compiler::compile(&toplevel).is_ok());
}

#[test]
fn bytecode_agrees_with_tree_walk() {
    // The equivalence is proved in general; this runs one concrete case
    // through both paths.
    let e = comp(Operator::Add, lit(1), comp(Operator::Mul, lit(4), lit(5)));
    let mut ctx1 = localc::context::VmContext::new();
    let mut ctx2 = localc::context::VmContext::new();
    let tree = localc::vm::run_with_ctx(&e, &mut ctx1).unwrap();
    let co = localc::compiler::compile(&e).unwrap();
    let machine = localc::vm::run_bytecode_with_ctx(&co, &mut ctx2).unwrap();
    match (tree, machine) {
        (Value::Numeric(a), Value::Numeric(b)) => {
            assert_eq!(parts(&a), (21, 1));
            assert_eq!(parts(&b), (21, 1));
        }
        other => panic!("expected numbers, got {other:?}"),
    }
}

#[test]
fn lexer_classifies_words() {
    assert!(localc::lexer::is_special_char(&'+'));
    assert!(localc::lexer::is_special_char(&'('));
    assert!(!localc::lexer::is_special_char(&'a'));
    // `is_valid_ident` reports words that are *not* well-formed names.
    assert!(!localc::lexer::is_valid_ident(&String::from("abc")));
    assert!(!localc::lexer::is_valid_ident(&String::from("a1_b'")));
    assert!(localc::lexer::is_valid_ident(&String::from("1abc")));
    assert!(localc::lexer::is_valid_ident(&String::from("")));
}

#[test]
fn lexer_validate_rejects_adjacent_runs() {
    let ts = localc::lexer::tokenize("10 10").unwrap();
    assert!(localc::lexer::validate(ts).is_err());
    let ts2 = localc::lexer::tokenize("1 + 2").unwrap();
    assert!(localc::lexer::validate(ts2).is_ok());
}

#[test]
fn lexer_take_till_match_stops_at_closer() {
    let ts = localc::lexer::tokenize("(1+2)*3").unwrap();
    // Position one sits just after the opening parenthesis.
    let (inner, next) = localc::lexer::take_till_match(&ts, 1, '(');
    assert_eq!(inner.len(), 3);
    assert_eq!(next, 5);
}

#[test]
fn overload_patterns_accept_matching_arguments() {
    let pattern = Overload::from(vec![lit(0), Expr::Ref(String::from("x"))]);
    assert_eq!(pattern.count(), 2);
    assert!(pattern.accepts(&vec![lit(0), lit(7)]));
    assert!(!pattern.accepts(&vec![lit(1), lit(7)]));
    assert!(!pattern.accepts(&vec![lit(0)]));
    let empty = Overload::new();
    assert_eq!(empty.count(), 0);
    assert!(empty.accepts(&vec![]));
    assert_eq!(pattern.iter().len(), 2);
}

#[test]
fn arity_mismatch_is_reported_by_natives() {
    let mut vm = localc::vm::Vm::with_stdlib();
    assert!(matches!(vm.run("if(1)"), Err(Error::NoMatchingOverload(_, _))));
}

#[test]
fn value_equality_is_semantic() {
    let a = Value::Numeric(Num::new(10, 2).unwrap());
    let b = Value::Numeric(whole(5));
    assert!(localc::ops::val_eq(&a, &b).unwrap());
    let t1 = Value::Tuple(vec![lit(1), lit(2)]);
    let t2 = Value::Tuple(vec![lit(1), lit(2)]);
    let t3 = Value::Tuple(vec![lit(1)]);
    assert!(localc::ops::val_eq(&t1, &t2).unwrap());
    assert!(!localc::ops::val_eq(&t1, &t3).unwrap());
}

#[test]
fn coercion_faults_on_mixed_operands() {
    let mut vm = localc::vm::Vm::new();
    assert!(matches!(vm.run("1 + true"), Err(Error::CoercionError)));
    assert!(matches!(vm.run("true < 1"), Err(Error::CoercionError)));
}

#[test]
fn assignment_target_must_be_a_name_or_pattern() {
    // The compiler refuses the malformed target ahead of execution...
    let mut vm = localc::vm::Vm::new();
    assert!(matches!(vm.run("2=10"), Err(Error::CompileError(_))));
    // ...and the tree walk reports the same shape at run time.
    let bad = Expr::Comp(
        Operator::Store,
        Box::new(Expr::Value(Value::Numeric(whole(2)))),
        Box::new(Expr::Value(Value::Numeric(whole(10)))),
    );
    let mut ctx = localc::context::VmContext::new();
    assert!(matches!(
        localc::vm::run_with_ctx(&bad, &mut ctx),
        Err(Error::AssignmentTargetInvalid)
    ));
}

#[test]
fn broken_stack_discipline_is_reported() {
    let co = localc::code::CodeObject { code: vec![localc::code::Instruction::BinOp(Operator::Add)] };
    let mut ctx = localc::context::VmContext::new();
    assert!(matches!(
        localc::vm::run_bytecode_with_ctx(&co, &mut ctx),
        Err(Error::InvalidBytecode)
    ));
    let empty = localc::code::CodeObject { code: vec![] };
    assert!(matches!(
        localc::vm::run_bytecode_with_ctx(&empty, &mut ctx),
        Err(Error::InvalidBytecode)
    ));
}

#[test]
fn reading_an_argument_taking_native_faults() {
    let mut ctx = localc::context::VmContext::new();
    let table = localc::context::VmFunctionTable::new().with_native(
        &None,
        localc::context::Native::Sqrt,
    );
    ctx.set(&String::from("oddly"), table);
    let name = String::from("oddly");
    assert!(matches!(
        localc::vm::run_lookup(&name, &mut ctx),
        Err(Error::ArityMismatch(_, 1, 0))
    ));
}

#[test]
fn generator_counts_upward() {
    let mut vm = localc::vm::Vm::new();
    let mut g = localc::vm::GenType::new();
    g.contains();
    match g.next(&mut vm) {
        Some(Value::Numeric(q)) => assert_eq!(parts(&q), (0, 1)),
        other => panic!("expected the first candidate, got {other:?}"),
    }
}
