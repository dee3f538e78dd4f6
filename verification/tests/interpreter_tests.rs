use tinylang::frontend::ast::Statement;
use tinylang::frontend::parser::{ParseError, Parser};
use tinylang::runtime::environment::Environment;
use tinylang::runtime::interpreter::{evaluate, NumberOp};
use tinylang::runtime::values::{RuntimeError, RuntimeValue};

/// IEEE-754 double arithmetic over bit patterns: the arithmetic a real
/// session supplies.
fn ieee(op: NumberOp) -> u64 {
    match op {
        NumberOp::Literal(n) => (n as f64).to_bits(),
        NumberOp::Binary(operator, a, b) => {
            let x = f64::from_bits(a);
            let y = f64::from_bits(b);
            let r = match operator {
                '+' => x + y,
                '-' => x - y,
                '*' => x * y,
                '/' => x / y,
                '%' => x % y,
                other => panic!("unknown operator {}", other),
            };
            r.to_bits()
        },
    }
}

/// Plain wrapping integer arithmetic: another admissible arithmetic.
fn integer(op: NumberOp) -> u64 {
    match op {
        NumberOp::Literal(n) => n,
        NumberOp::Binary(operator, a, b) => match operator {
            '+' => a.wrapping_add(b),
            '-' => a.wrapping_sub(b),
            '*' => a.wrapping_mul(b),
            '/' => {
                if b == 0 {
                    0
                } else {
                    a / b
                }
            },
            '%' => {
                if b == 0 {
                    0
                } else {
                    a % b
                }
            },
            other => panic!("unknown operator {}", other),
        },
    }
}

fn eval_source(source: &str, env: &mut Environment) -> Result<RuntimeValue, RuntimeError> {
    let mut parser = Parser::new(source).unwrap();
    let program = parser.produce_ast().unwrap();
    evaluate(Statement::Program(program), env, &ieee)
}

fn eval_number(source: &str, env: &mut Environment) -> f64 {
    match eval_source(source, env).unwrap() {
        RuntimeValue::Number(bits) => f64::from_bits(bits),
        other => panic!("expected a number, got {:?}", other),
    }
}

#[test]
fn each_operator_follows_ieee_semantics() {
    let mut env = Environment::new(None);
    assert_eq!(eval_number("1 + 2", &mut env), 3.0);
    assert_eq!(eval_number("5 - 9", &mut env), -4.0);
    assert_eq!(eval_number("6 * 7", &mut env), 42.0);
    assert_eq!(eval_number("7 / 2", &mut env), 3.5);
    assert_eq!(eval_number("10 % 3", &mut env), 1.0);
}

#[test]
fn division_by_zero_follows_ieee_semantics() {
    let mut env = Environment::new(None);
    assert_eq!(eval_number("1 / 0", &mut env), f64::INFINITY);
    assert!(eval_number("0 / 0", &mut env).is_nan());
}

#[test]
fn precedence_multiplication_binds_tighter() {
    let mut env = Environment::new(None);
    assert_eq!(eval_number("2 + 3 * 4", &mut env), 14.0);
}

#[test]
fn subtraction_evaluates_left_to_right() {
    let mut env = Environment::new(None);
    assert_eq!(eval_number("10 - 3 - 2", &mut env), 5.0);
}

#[test]
fn parentheses_override_precedence() {
    let mut env = Environment::new(None);
    assert_eq!(eval_number("(2 + 3) * 4", &mut env), 20.0);
}

#[test]
fn integer_arithmetic_is_also_admissible() {
    let mut parser = Parser::new("2 + 3 * 4").unwrap();
    let program = parser.produce_ast().unwrap();
    let mut env = Environment::new(None);
    let value = evaluate(Statement::Program(program), &mut env, &integer).unwrap();
    assert!(matches!(value, RuntimeValue::Number(14)));
}

#[test]
fn declaration_then_lookup_round_trips() {
    let mut env = Environment::new(None);
    assert_eq!(eval_number("let x = 5;", &mut env), 5.0);
    assert_eq!(eval_number("x", &mut env), 5.0);
}

#[test]
fn declaration_without_initializer_yields_null() {
    let mut env = Environment::new(None);
    assert!(matches!(eval_source("let u;", &mut env).unwrap(), RuntimeValue::Null));
    assert!(matches!(eval_source("u", &mut env).unwrap(), RuntimeValue::Null));
}

#[test]
fn empty_program_yields_null() {
    let mut env = Environment::new(None);
    assert!(matches!(eval_source("", &mut env).unwrap(), RuntimeValue::Null));
}

#[test]
fn program_yields_value_of_last_statement() {
    let mut env = Environment::new(None);
    assert_eq!(eval_number("let a = 1; a + 1", &mut env), 2.0);
}

#[test]
fn redeclaration_in_same_scope_is_rejected() {
    let mut env = Environment::new(None);
    eval_source("let z = 1;", &mut env).unwrap();
    let error = eval_source("let z = 1;", &mut env).unwrap_err();
    assert!(matches!(error, RuntimeError::AlreadyDeclared(name) if name == "z"));
}

#[test]
fn undeclared_identifier_is_rejected() {
    let mut env = Environment::new(None);
    let error = eval_source("w", &mut env).unwrap_err();
    assert!(matches!(error, RuntimeError::UndeclaredVariable(name) if name == "w"));
}

#[test]
fn constant_stays_intact_after_failed_reassignment() {
    let mut env = Environment::new(None);
    assert_eq!(eval_number("const y = 1;", &mut env), 1.0);
    // The grammar has no assignment expression, so the reassignment dies in
    // the parser; the binding itself refuses assignment as well.
    let mut parser = Parser::new("y = 2;").unwrap();
    assert!(matches!(parser.produce_ast(), Err(ParseError::UnexpectedToken(_))));
    let error = env
        .assign_variable("y", RuntimeValue::Number(2.0f64.to_bits()))
        .unwrap_err();
    assert!(matches!(error, RuntimeError::AssignedToConstant(name) if name == "y"));
    assert_eq!(eval_number("y", &mut env), 1.0);
}

#[test]
fn non_numeric_operands_are_rejected() {
    let mut env = Environment::new(None);
    env.declare_variable("t".to_owned(), RuntimeValue::Boolean(true), true)
        .unwrap();
    let error = eval_source("t + 1", &mut env).unwrap_err();
    assert!(matches!(error, RuntimeError::NonNumericOperands));
}

#[test]
fn session_constants_resolve_like_the_repl() {
    let mut env = Environment::new(None);
    env.declare_variable("null".to_owned(), RuntimeValue::Null, true)
        .unwrap();
    env.declare_variable("true".to_owned(), RuntimeValue::Boolean(true), true)
        .unwrap();
    env.declare_variable("false".to_owned(), RuntimeValue::Boolean(false), true)
        .unwrap();
    assert!(matches!(eval_source("null", &mut env).unwrap(), RuntimeValue::Null));
    assert!(matches!(eval_source("true", &mut env).unwrap(), RuntimeValue::Boolean(true)));
    assert!(matches!(eval_source("false", &mut env).unwrap(), RuntimeValue::Boolean(false)));
}
