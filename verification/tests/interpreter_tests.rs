use calculator::ast::interpreter::Interpreter;
use calculator::ast::lexer::TokenKind;
use calculator::ast::parser::{EvalOp, ParseError};
use std::f32::consts::PI;

/// Folds a checked evaluation plan over an `f32` stack, exactly as the
/// documentation on `EvalOp` prescribes.
fn eval_plan(plan: &[EvalOp]) -> Result<f32, ParseError> {
    let mut stack: Vec<f32> = Vec::new();
    for op in plan {
        match op {
            EvalOp::PushNumber(text) => stack.push(text.parse::<f32>().unwrap()),
            EvalOp::PushPi => stack.push(PI),
            EvalOp::Sin => {
                let x = stack.pop().unwrap();
                stack.push(x.sin());
            }
            EvalOp::Cos => {
                let x = stack.pop().unwrap();
                stack.push(x.cos());
            }
            EvalOp::Tan => {
                let x = stack.pop().unwrap();
                stack.push(x.tan());
            }
            EvalOp::Log => {
                let x = stack.pop().unwrap();
                stack.push(x.log10());
            }
            EvalOp::Add => {
                let x = stack.pop().unwrap();
                let y = stack.pop().unwrap();
                stack.push(y + x);
            }
            EvalOp::Sub => {
                let x = stack.pop().unwrap();
                let y = stack.pop().unwrap();
                stack.push(y - x);
            }
            EvalOp::Mul => {
                let x = stack.pop().unwrap();
                let y = stack.pop().unwrap();
                stack.push(y * x);
            }
            EvalOp::Div => {
                let x = stack.pop().unwrap();
                let y = stack.pop().unwrap();
                if x == 0.0 {
                    return Err(ParseError::DivisionByZero);
                }
                stack.push(y / x);
            }
            EvalOp::Pow => {
                let x = stack.pop().unwrap();
                let y = stack.pop().unwrap();
                stack.push(y.powf(x));
            }
        }
    }
    Ok(stack.pop().unwrap_or(0.0))
}

fn run(expression: &str) -> Result<f32, ParseError> {
    let mut inter = Interpreter::new();
    let plan = inter.interpret(expression)?;
    eval_plan(&plan)
}

#[test]
fn test_calculation_1() {
    assert_eq!(1.0 + 1.0, run("1 + 1").unwrap())
}

#[test]
fn test_calculation_2() {
    assert_eq!(10.0 * 10.0 - 1.0, run("10 * 10 - 1").unwrap())
}

#[test]
fn test_calculation_3() {
    assert_eq!(10.0 * (10.0 + 1.0), run("10 * (10 + 1)").unwrap())
}

#[test]
fn test_calculation_4() {
    assert_eq!(
        33.0 * 10.0 - (10.0 / 2.0 / 2.0 + 1.0) * 3.0 - 1.0,
        run("33.0 * 10.0 - (10.0 / 2.0 / 2.0 + 1.0) * 3.0 - 1.0").unwrap()
    )
}

#[test]
fn no_space_test_calculation_1() {
    assert_eq!(1.0 + 1.0, run("1+1").unwrap())
}

#[test]
fn no_space_test_calculation_2() {
    assert_eq!(10.0 * 10.0 - 1.0, run("10*10-1").unwrap())
}

#[test]
fn no_space_test_calculation_3() {
    assert_eq!(10.0 * (10.0 + 1.0), run("10*(10+1)").unwrap())
}

#[test]
fn no_space_test_calculation_4() {
    assert_eq!(
        33.0 * 10.0 - (10.0 / 2.0 / 2.0 + 1.0) * 3.0 - 1.0,
        run("(33*10-(10/2/2+1)*3-1)").unwrap()
    )
}

#[test]
#[should_panic]
fn no_close_paren_should_panic() {
    run("10*(10+1").unwrap();
}

#[test]
#[should_panic]
fn empty_should_panic() {
    run("").unwrap();
}

#[test]
#[should_panic]
fn missing_statement_should_panic_1() {
    run("1 +").unwrap();
}

#[test]
#[should_panic]
fn missing_statement_should_panic_2() {
    run("+ 1").unwrap();
}

#[test]
fn test_power_1() {
    assert_eq!(2.0f32.powf(2.0), run("2^2").unwrap())
}

#[test]
fn test_power_2() {
    assert_eq!(2.0f32.powf(2.0) * 3.0, run("2^2 * 3").unwrap())
}

#[test]
fn test_pi_1() {
    assert_eq!(PI, run("pi").unwrap())
}

#[test]
fn test_pi_2() {
    assert_eq!(PI, run("PI").unwrap())
}

#[test]
fn test_pi_caluclation_1() {
    assert_eq!((2.0 * PI), run("2 * pi").unwrap())
}

#[test]
fn test_pi_caluclation_2() {
    assert_eq!((PI - 2.0 * (10.0 * PI)), run("pi - 2 * (10*pi)").unwrap())
}

#[test]
fn test_sin_calcultion_1() {
    assert_eq!(1.0_f32.sin(), run("sin 1").unwrap())
}

#[test]
fn test_sin_calcultion_2() {
    assert_eq!(1.0_f32.sin() * 2.0_f32.sin(), run("sin 1 * sin 2").unwrap())
}

#[test]
fn test_cos_calcultion_1() {
    assert_eq!(1.0_f32.cos(), run("cos 1").unwrap())
}

#[test]
fn test_cos_calcultion_2() {
    assert_eq!(1.0_f32.cos() * 2.0_f32.cos(), run("cos 1 * cos 2").unwrap())
}

#[test]
fn test_tan_calcultion_1() {
    assert_eq!(1.0_f32.tan(), run("tan 1").unwrap())
}

#[test]
fn test_tan_calcultion_2() {
    assert_eq!(1.0_f32.tan() * 2.0_f32.tan(), run("tan 1 * tan 2").unwrap())
}

#[test]
fn test_log_calculation_1() {
    assert_eq!(2.0_f32.log10(), run("log 2").unwrap())
}

#[test]
fn test_log_calculation_2() {
    assert_eq!(2.0_f32.log10() * 2.0_f32.log10(), run("log 2 * log 2").unwrap())
}

#[test]
fn test_mixed_calculation_1() {
    assert_eq!(
        2.0 * 3.0 - 4.0_f32.sin() * (10.0 / 20.0 * 1.0_f32.sin()),
        run("2 * 3 - (sin 4) * (10 / 20 * (sin 1))").unwrap()
    )
}

#[test]
fn test_mixed_calculation_2() {
    assert_eq!(
        2.0 * 3.0 - 4.0_f32.sin() * (10.0 / 20.0 * 1.0_f32.cos()),
        run("2 * 3 - (sin 4) * (10 / 20 * (cos 1))").unwrap()
    )
}

#[test]
fn test_mixed_calculation_3() {
    assert_eq!(
        2.0 * 3.0 - 4.0_f32.sin() * (10.0 / 20.0 * 1.0_f32.cos()) + 2.0_f32.tan(),
        run("2 * 3 - (sin 4) * (10 / 20 * (cos 1)) + tan 2").unwrap()
    )
}

#[test]
fn whitespace_insensitivity() {
    assert_eq!(run("10 * 10 - 1").unwrap(), run("10*10-1").unwrap());
    assert_eq!(run("2 ^ 2 * 3").unwrap(), run("2^2*3").unwrap());
    assert_eq!(run("  1 +  1  ").unwrap(), run("1+1").unwrap());
}

#[test]
fn parenthesization() {
    assert_eq!(110.0, run("10 * (10 + 1)").unwrap());
}

#[test]
fn power_rewrite() {
    assert_eq!(12.0, run("2^2 * 3").unwrap());
}

#[test]
fn pi_case_insensitive() {
    assert_eq!(PI, run("Pi").unwrap());
    assert_eq!(PI, run("pI").unwrap());
}

#[test]
fn function_application() {
    assert_eq!(1.0_f32.sin(), run("sin 1").unwrap());
    assert_eq!(1.0_f32.cos() * 2.0_f32.cos(), run("cos 1 * cos 2").unwrap());
}

#[test]
fn division_by_zero() {
    assert!(matches!(run("1/0"), Err(ParseError::DivisionByZero)));
    assert!(matches!(run("1 / (2 - 2)"), Err(ParseError::DivisionByZero)));
}

#[test]
fn empty_expression_error() {
    assert!(matches!(run(""), Err(ParseError::ExpressionEmpty)));
}

#[test]
fn missing_expression_errors() {
    assert!(matches!(run("1 +"), Err(ParseError::MissingExpression)));
    assert!(matches!(run("+ 1"), Err(ParseError::MissingExpression)));
    assert!(matches!(run("sin"), Err(ParseError::MissingExpression)));
    assert!(matches!(run("2^"), Err(ParseError::MissingExpression)));
    assert!(matches!(run("^2"), Err(ParseError::MissingExpression)));
}

#[test]
fn parens_mismatch_errors() {
    assert!(matches!(run("10*(10+1"), Err(ParseError::ParensMismatch)));
    assert!(matches!(run("10+1)"), Err(ParseError::ParensMismatch)));
    assert!(matches!(run("("), Err(ParseError::ParensMismatch)));
}

#[test]
fn unexpected_operator_errors() {
    assert!(matches!(
        run("1 - + 2"),
        Err(ParseError::UnexpectedOperator(TokenKind::Plus))
    ));
    assert!(matches!(
        run("1 + + 2"),
        Err(ParseError::UnexpectedOperator(TokenKind::Plus))
    ));
}

#[test]
fn sign_normalization_values() {
    assert_eq!(3.0, run("1 - - 2").unwrap());
    assert_eq!(-1.0, run("1 + - 2").unwrap());
}

#[test]
fn left_to_right_with_precedence() {
    assert_eq!(3.0, run("5 - 2").unwrap());
    assert_eq!(4.0, run("8 / 2").unwrap());
    assert_eq!(25.0, run("1 + 2 * 3 * 4").unwrap());
    assert_eq!(7.0, run("1 + 2 * 3").unwrap());
    assert_eq!(5.0, run("10 - 2 - 3").unwrap());
    assert_eq!(2.5, run("10 / 2 / 2").unwrap());
}

#[test]
fn trailing_newlines_ignored() {
    assert_eq!(run("1 + 1").unwrap(), run("1 + 1\n").unwrap());
    assert_eq!(run("1 + 1").unwrap(), run("1 + 1\r\n").unwrap());
    assert_eq!(run("2^2 * 3").unwrap(), run("2^2 * 3\r\n\r\n").unwrap());
}

#[test]
fn unbound_identifier_is_skipped() {
    assert_eq!(0.0, run("abc").unwrap());
}

#[test]
fn decimal_literals() {
    assert_eq!(1.5 + 2.25, run("1.5 + 2.25").unwrap());
}

#[test]
fn plan_contents() {
    let mut inter = Interpreter::new();
    let plan = inter.interpret("1 + 2").unwrap();
    assert_eq!(
        plan,
        vec![
            EvalOp::PushNumber(String::from("1")),
            EvalOp::PushNumber(String::from("2")),
            EvalOp::Add,
        ]
    );
    let plan = inter.interpret("2^3").unwrap();
    assert_eq!(
        plan,
        vec![
            EvalOp::PushNumber(String::from("2")),
            EvalOp::PushNumber(String::from("3")),
            EvalOp::Pow,
        ]
    );
    let plan = inter.interpret("pi").unwrap();
    assert_eq!(plan, vec![EvalOp::PushPi]);
}
