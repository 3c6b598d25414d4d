//! Arithmetic and logic through the full pipeline: text in, value out.

use localc::ast::Value;
use localc::vm::Vm;

fn run_num(src: &str) -> (i64, i64) {
    let mut vm = Vm::new();
    match vm.run(src) {
        Ok(Value::Numeric(q)) => (q.numerator(), q.denominator()),
        other => panic!("expected a number for {src}, got {other:?}"),
    }
}

fn run_log(src: &str) -> bool {
    let mut vm = Vm::new();
    match vm.run(src) {
        Ok(Value::Logical(b)) => b,
        other => panic!("expected a truth value for {src}, got {other:?}"),
    }
}

#[test]
fn addition() {
    assert_eq!(run_num("18+18"), (36, 1));
}

#[test]
fn subtraction() {
    assert_eq!(run_num("18-18"), (0, 1));
}

#[test]
fn multiplication() {
    assert_eq!(run_num("18*18"), (324, 1));
}

#[test]
fn division() {
    assert_eq!(run_num("18/18"), (1, 1));
}

#[test]
fn division_zero() {
    let mut vm = Vm::new();
    assert!(vm.run("18/0").is_err(), "division with zero is not possible");
    assert!(matches!(vm.run("18/0"), Err(localc::error::Error::DivisionByZero)));
}

#[test]
fn parse_simple() {
    assert_eq!(run_num("1+1"), (2, 1));
}

#[test]
fn parse_long() {
    assert_eq!(run_num("1+1-1+1-1+1-1+1-1"), (1, 1));
}

#[test]
fn parse_simple_higher() {
    assert_eq!(run_num("1*1"), (1, 1));
}

#[test]
fn parse_long_higher() {
    assert_eq!(run_num("2*5/2*5/2*5"), (125, 2));
}

#[test]
fn parse_complex() {
    assert_eq!(run_num("2+10/2-2*1+1"), (6, 1));
}

#[test]
fn parse_two_numbers() {
    let mut vm = Vm::new();
    assert!(vm.run("10 10").is_err(), "two numbers not allowed without operator");
}

#[test]
fn parse_parens_simple() {
    assert_eq!(run_num("10*(2+1)"), (30, 1));
}

#[test]
fn parse_parens_complex() {
    assert_eq!(run_num("10*(2*(2+1)-1)-1"), (49, 1));
}

#[test]
fn parse_parens_incorrect() {
    let mut vm = Vm::new();
    assert!(vm.run("10*((2*(2+1)-1)-1").is_err(), "nesting is not valid");
}

#[test]
fn parse_empty() {
    let mut vm = Vm::new();
    assert!(vm.run("(())").is_err(), "empty expression is an error");
}

#[test]
fn parse_brackets_empty() {
    let mut vm = Vm::new();
    assert!(vm.run("[]").is_err(), "empty expression is an error");
}

#[test]
fn parse_brackets_simple() {
    assert_eq!(run_num("10*[2+1]"), (30, 1));
}

#[test]
fn parse_brackets_complex() {
    assert_eq!(run_num("10*[2*(2+1)-1]-1"), (49, 1));
}

#[test]
fn parse_brackets_incorrect() {
    let mut vm = Vm::new();
    assert!(vm.run("10*[(2*(2+1)-1]]-1").is_err(), "nesting is not valid");
}

#[test]
fn parse_power() {
    assert_eq!(run_num("10^3"), (1000, 1));
}

#[test]
fn parse_pi() {
    let mut vm = Vm::with_stdlib();
    match vm.run("pi") {
        Ok(Value::Numeric(q)) => {
            assert_eq!((q.numerator(), q.denominator()), (3141592653589793, 1000000000000000));
        }
        other => panic!("expected pi, got {other:?}"),
    }
}

#[test]
fn parse_pi_multiply() {
    let mut vm = Vm::with_stdlib();
    match vm.run("2*pi") {
        Ok(Value::Numeric(q)) => {
            let expected = localc::num::Num::from_decimal("6.283185307179586").unwrap();
            assert!(q.eq_num(&expected));
        }
        other => panic!("expected two pi, got {other:?}"),
    }
}

#[test]
fn parse_assign() {
    let mut vm = Vm::new();
    assert!(matches!(vm.run("x=10"), Ok(Value::Nil)));
    assert_eq!(
        match vm.run("x") {
            Ok(Value::Numeric(q)) => (q.numerator(), q.denominator()),
            other => panic!("expected the stored value, got {other:?}"),
        },
        (10, 1)
    );
}

#[test]
fn parse_assign_to_num() {
    let mut vm = Vm::new();
    assert!(vm.run("2=10").is_err(), "assignment to number is not allowed");
}

#[test]
fn parse_assign_expression() {
    let mut vm = Vm::new();
    assert!(matches!(vm.run("x=[(10*19)+10]*2"), Ok(Value::Nil)));
    assert_eq!(
        match vm.run("x") {
            Ok(Value::Numeric(q)) => (q.numerator(), q.denominator()),
            other => panic!("expected the stored value, got {other:?}"),
        },
        (400, 1)
    );
}

#[test]
fn numeric() {
    assert_eq!(run_num("1 + 1"), (2, 1));
    assert_eq!(run_num("18 + 18"), (36, 1));
    assert_eq!(run_num("18 - 18"), (0, 1));
    assert_eq!(run_num("18 * 18"), (324, 1));
    assert_eq!(run_num("18 / 18"), (1, 1));
    assert_eq!(run_num("10 ^ 3"), (1000, 1));
    assert_eq!(run_num("8 % 2"), (0, 1));
    assert_eq!(run_num("9 % 2"), (1, 1));
    assert_eq!(run_num("1 + 4 * 5"), (21, 1));
    assert_eq!(run_num("(1 + 4) * 5"), (25, 1));
    assert_eq!(run_num("(1.0 + 4) * 5 / 2"), (25, 2));
    assert_eq!(run_num("1 + 1 - 1 + 1 - 1 + 1 - 1 + 1 - 1"), (1, 1));
    assert_eq!(run_num("2.0 * 5 / 2 * 5 / 2 * 5"), (125, 2));
    assert_eq!(run_num("2.0 + 10 / 2 - 2 * 1 + 1"), (6, 1));
    assert_eq!(run_num("10.0 * (2 + 1)"), (30, 1));
    assert_eq!(run_num("10.0 * (2 * (2 + 1) - 1) - 1"), (49, 1));
}

#[test]
fn logical() {
    assert!(run_log("true"));
    assert!(!run_log("false"));
    assert!(run_log("1==1"));
    assert!(!run_log("1!=1"));
    assert!(run_log("20>10"));
    assert!(!run_log("10<10"));
    assert!(run_log("10<1020"));
    assert!(!run_log("10>1020"));
    assert!(run_log("10<=10"));
    assert!(run_log("10<=11"));
    assert!(run_log("10>=5"));
    assert!(run_log("10>=10"));
    assert!(run_log("1==1 || 2==2"));
    assert!(run_log("1==1 || 2!=2"));
    assert!(run_log("1!=1 || 2==2"));
    assert!(!run_log("1!=1 || 2!=2"));
    assert!(run_log("1==1 && 2==2"));
    assert!(!run_log("1==1 && 2!=2"));
    assert!(!run_log("1!=1 && 2==2"));
    assert!(!run_log("1!=1 && 2!=2"));
}
