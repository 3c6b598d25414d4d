//! Definitions, overload dispatch, scoping, the standard context and the
//! fatal assertion.

use localc::ast::Value;
use localc::error::Error;
use localc::vm::Vm;

fn num(vm: &mut Vm, src: &str) -> (i64, i64) {
    match vm.run(src) {
        Ok(Value::Numeric(q)) => (q.numerator(), q.denominator()),
        other => panic!("expected a number for {src}, got {other:?}"),
    }
}

fn truth(vm: &mut Vm, src: &str) -> bool {
    match vm.run(src) {
        Ok(Value::Logical(b)) => b,
        other => panic!("expected a truth value for {src}, got {other:?}"),
    }
}

#[test]
fn mod_fib() {
    let mut vm = Vm::new();
    vm.run("f(0) = 0").unwrap();
    vm.run("f(1) = 1").unwrap();
    vm.run("f(x) = f(x - 1) + f(x - 2)").unwrap();
    assert_eq!(num(&mut vm, "f(0)"), (0, 1));
    assert_eq!(num(&mut vm, "f(1)"), (1, 1));
    assert_eq!(num(&mut vm, "f(8)"), (21, 1));
}

#[test]
fn sqrt() {
    let mut vm = Vm::new();
    vm.run("sqrt(x) = 1.0 * x ^ (1.0 / 2)").unwrap();
    vm.run("sqrt(x,n) = 1.0 * x ^ (1.0 / n)").unwrap();
    assert_eq!(num(&mut vm, "sqrt(4)"), (2, 1));
    assert_eq!(num(&mut vm, "sqrt(27, 3)"), (3, 1));
}

#[test]
fn multiargs() {
    let mut vm = Vm::new();
    vm.run("f(0, 1) = false").unwrap();
    vm.run("f(1, 0) = true").unwrap();
    vm.run("f(x, y) = x == y").unwrap();
    assert!(!truth(&mut vm, "f(0, 1)"));
    assert!(truth(&mut vm, "f(1, 0)"));
    assert!(truth(&mut vm, "f(1, 1)"));
}

#[test]
fn context_example() {
    let mut vm = Vm::new();
    vm.run("even(n) = n % 2 == 0").unwrap();
    vm.run("odd(n) = even(n) == (1 != 1)").unwrap();
    vm.run("f(x) = my_const ^ x").unwrap();
    vm.run("my_const = 10").unwrap();
    vm.run("x = 2").unwrap();
    assert!(!truth(&mut vm, "even(1)"));
    assert!(truth(&mut vm, "even(2)"));
    assert!(truth(&mut vm, "odd(1)"));
    assert!(!truth(&mut vm, "odd(2)"));
    assert_eq!(num(&mut vm, "f(1)"), (10, 1));
    assert_eq!(num(&mut vm, "f(x)"), (100, 1));
    vm.run("my_const = 2").unwrap();
    assert_eq!(num(&mut vm, "f(1)"), (2, 1));
    assert_eq!(num(&mut vm, "f(x)"), (4, 1));
}

#[test]
fn tuples() {
    let mut vm = Vm::new();
    vm.run("f(n) = n ^ 2").unwrap();
    match vm.run("(1,2,3,f(2))") {
        Ok(Value::Tuple(elems)) => {
            let expected = [1i64, 2, 3, 4];
            assert_eq!(elems.len(), expected.len());
            for (e, want) in elems.iter().zip(expected.iter()) {
                match e {
                    localc::ast::Expr::Value(Value::Numeric(q)) => {
                        assert_eq!((q.numerator(), q.denominator()), (*want, 1));
                    }
                    other => panic!("expected an evaluated element, got {other:?}"),
                }
            }
        }
        other => panic!("expected a tuple, got {other:?}"),
    }
}

#[test]
fn redefinition_replaces_in_place() {
    let mut vm = Vm::new();
    vm.run("f(x) = x * 2").unwrap();
    vm.run("f(x) = x * 3").unwrap();
    assert_eq!(num(&mut vm, "f(5)"), (15, 1));
}

#[test]
fn shadowing_restores_global() {
    let mut vm = Vm::new();
    vm.run("x = 1").unwrap();
    vm.run("g(x) = x * 10").unwrap();
    assert_eq!(num(&mut vm, "g(7)"), (70, 1));
    // After the call, the global binding is visible again, unchanged.
    assert_eq!(num(&mut vm, "x"), (1, 1));
}

#[test]
fn assert_native() {
    let mut vm = Vm::with_stdlib();
    assert!(matches!(vm.run("assert(1==1)"), Ok(Value::Nil)));
    assert!(matches!(vm.run("assert(1==2)"), Err(Error::AssertionFailed)));
}

#[test]
fn stdlib_if_is_lazy() {
    let mut vm = Vm::with_stdlib();
    // The unselected branch calls a name that is not defined anywhere.
    assert_eq!(num(&mut vm, "if(1==1, 5, unknown_fn())"), (5, 1));
    assert_eq!(num(&mut vm, "if(1==2, unknown_fn(), 7)"), (7, 1));
}

#[test]
fn stdlib_roots_and_logs() {
    let mut vm = Vm::with_stdlib();
    assert_eq!(num(&mut vm, "sqrt(16)"), (4, 1));
    assert_eq!(num(&mut vm, "sqrt(64)"), (8, 1));
    assert_eq!(num(&mut vm, "sqrt(3125, 5)"), (5, 1));
    assert_eq!(num(&mut vm, "log(100)"), (2, 1));
    assert_eq!(num(&mut vm, "log(8, 2)"), (3, 1));
    assert!(vm.run("sqrt(2)").is_err(), "an irrational root is not representable");
}

#[test]
fn unknown_names_are_reported() {
    let mut vm = Vm::new();
    assert!(matches!(vm.run("nope"), Err(Error::VariableUnknown(_))));
    assert!(matches!(vm.run("nope(1)"), Err(Error::FunctionUnknown(_))));
    vm.run("f(0) = 1").unwrap();
    assert!(matches!(vm.run("f(2)"), Err(Error::NoMatchingOverload(_, 1))));
}

#[test]
fn cyclic_assignment_is_refused() {
    let mut vm = Vm::new();
    vm.run("a = 1").unwrap();
    vm.run("b = a").unwrap();
    assert!(matches!(vm.run("a = b"), Err(Error::CyclicAssignment(_))));
    // The failed redefinition left the previous binding untouched.
    assert_eq!(num(&mut vm, "a"), (1, 1));
    // Self-recursion through a call pattern stays legal.
    vm.run("f(x) = f(x - 1)").unwrap();
}

#[test]
fn nested_assignment_targets_are_not_dependencies() {
    let mut vm = Vm::new();
    // The stored body writes `b`; it does not read it. Defining `b` in
    // terms of `a` afterwards is therefore no cycle.
    vm.run("a = (b = 1)").unwrap();
    assert!(matches!(vm.run("b = a"), Ok(Value::Nil)));
}

#[test]
fn recursion_depth_is_bounded() {
    let mut vm = Vm::new();
    vm.run("f(x) = f(x + 1)").unwrap();
    assert!(matches!(vm.run("f(0)"), Err(Error::StackDepthExceeded)));
    // The failing call left the stack balanced: evaluation still works.
    assert_eq!(num(&mut vm, "1 + 1"), (2, 1));
}

#[test]
fn strict_connectives_evaluate_both_sides() {
    let mut vm = Vm::new();
    // The optimizer would fold this, but the raw evaluator is strict and
    // must fail on the unknown call in the right operand.
    let lhs = localc::ast::Expr::Value(Value::Logical(false));
    let rhs = localc::ast::Expr::Func(String::from("unknown_fn"), Some(vec![]));
    let e = localc::ast::Expr::Comp(
        localc::ast::Operator::And,
        Box::new(lhs),
        Box::new(rhs),
    );
    assert!(matches!(vm.run_expr(&e), Err(Error::FunctionUnknown(_))));
}
