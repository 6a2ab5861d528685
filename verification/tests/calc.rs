use j2calc::calc::{algebraic_evaluate, digit_value, rpn_evaluate, Error, Token, Value};

fn digit(d: u32) -> f64 {
    d as f64
}

fn plus(a: f64, b: f64) -> f64 {
    a + b
}

fn eval(expression: &str) -> Result<Value<f64>, Error> {
    algebraic_evaluate(expression, &digit, &plus)
}

#[test]
fn basic1() {
    assert_eq!(Ok(Value::Real(4.0)), eval("2+2"));
}

#[test]
fn basic2() {
    assert_eq!(Ok(Value::Real(6.0)), eval("2+2+2"));
}

#[test]
fn single_digit_is_its_value() {
    assert_eq!(Ok(Value::Real(7.0)), eval("7"));
}

#[test]
fn empty_expression_is_rejected() {
    assert_eq!(Err(Error {}), eval(""));
}

#[test]
fn too_many_plus_signs_are_rejected() {
    assert_eq!(Err(Error {}), eval("2+"));
    assert_eq!(Err(Error {}), eval("2++3"));
    assert_eq!(Err(Error {}), eval("+"));
}

#[test]
fn too_few_plus_signs_are_rejected() {
    assert_eq!(Err(Error {}), eval("23"));
    assert_eq!(Err(Error {}), eval("2*3"));
}

#[test]
fn other_characters_are_skipped() {
    assert_eq!(Ok(Value::Real(5.0)), eval("a2 b+ c3"));
    assert_eq!(Ok(Value::Real(9.0)), eval(" 4 + 5 "));
}

#[test]
fn plus_signs_may_stand_anywhere() {
    assert_eq!(Ok(Value::Real(4.0)), eval("22+"));
    assert_eq!(Ok(Value::Real(4.0)), eval("+22"));
}

#[test]
fn additions_fold_from_the_last_digit_back() {
    // With an operation that shows its operands' order, the fold is
    // plus(plus(3, 2), 1).
    let shifted = |a: u64, b: u64| a * 10 + b;
    let digit_u64 = |d: u32| d as u64;
    assert_eq!(Ok(Value::Real(321)), algebraic_evaluate("1+2+3", &digit_u64, &shifted));
    assert_eq!(Ok(Value::Real(21)), algebraic_evaluate("12+", &digit_u64, &shifted));
}

#[test]
fn digit_values() {
    assert_eq!(digit_value('0'), Some(0));
    assert_eq!(digit_value('9'), Some(9));
    assert_eq!(digit_value('a'), None);
    assert_eq!(digit_value('+'), None);
}

#[test]
fn rpn_pushes_values() {
    let mut stack: Vec<Value<f64>> = Vec::new();
    assert_eq!(rpn_evaluate(&mut stack, &Token::Value(Value::Real(1.5)), &plus), Ok(()));
    assert_eq!(rpn_evaluate(&mut stack, &Token::Value(Value::Complex(1.0, 2.0)), &plus), Ok(()));
    assert_eq!(stack, vec![Value::Real(1.5), Value::Complex(1.0, 2.0)]);
}

#[test]
fn rpn_adds_top_value_first() {
    let shifted = |a: u64, b: u64| a * 10 + b;
    let mut stack = vec![Value::Real(7u64), Value::Real(1), Value::Real(2)];
    assert_eq!(rpn_evaluate(&mut stack, &Token::Operator('+'), &shifted), Ok(()));
    assert_eq!(stack, vec![Value::Real(7), Value::Real(21)]);
}

#[test]
fn rpn_needs_two_operands() {
    let mut stack = vec![Value::Real(1.0)];
    assert_eq!(rpn_evaluate(&mut stack, &Token::Operator('+'), &plus), Err(Error {}));
    assert_eq!(stack, vec![Value::Real(1.0)]);
    let mut empty: Vec<Value<f64>> = Vec::new();
    assert_eq!(rpn_evaluate(&mut empty, &Token::Operator('+'), &plus), Err(Error {}));
    assert!(empty.is_empty());
}

#[test]
fn rpn_rejects_unknown_operators() {
    let mut stack = vec![Value::Real(1.0), Value::Real(2.0)];
    assert_eq!(rpn_evaluate(&mut stack, &Token::Operator('-'), &plus), Err(Error {}));
    assert_eq!(stack, vec![Value::Real(1.0), Value::Real(2.0)]);
}

#[test]
fn rpn_rejects_complex_operands_after_popping_them() {
    let mut stack = vec![Value::Real(3.0), Value::Complex(1.0, 2.0), Value::Real(2.0)];
    assert_eq!(rpn_evaluate(&mut stack, &Token::Operator('+'), &plus), Err(Error {}));
    assert_eq!(stack, vec![Value::Real(3.0)]);
}

#[test]
fn deleting_other_characters_keeps_the_result() {
    assert_eq!(eval("2 + 2"), eval("2+2"));
    assert_eq!(eval("x1y+z2!"), eval("1+2"));
    assert_eq!(eval("(3)"), eval("3"));
}

#[test]
fn reordering_keeps_the_result() {
    assert_eq!(eval("+22"), eval("22+"));
    assert_eq!(eval("2+2"), eval("22+"));
    assert_eq!(eval("1+2+3"), eval("3+2+1"));
    assert_eq!(eval("123++"), Ok(Value::Real(6.0)));
    assert_eq!(eval("1+23+"), eval("++321"));
}
