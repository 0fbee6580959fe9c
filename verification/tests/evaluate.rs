use rpn::check_shape;
use rpn::tokenizer;
use rpn::EvalError;
use rpn::Evaluator;
use rpn::Op;
use rpn::ScanTok;
use rpn::StepOutcome;
use rpn::Token;

/// Turns scanned tokens into evaluator tokens: each literal is parsed to an
/// `f32` and carried as its bit pattern. The literal grammar only admits
/// words that `parse::<f32>` accepts.
fn to_eval_tokens(scanned: Vec<ScanTok>) -> Vec<Token> {
    scanned
        .into_iter()
        .map(|t| match t {
            ScanTok::Operator(op) => Token::Operator(op),
            ScanTok::Number(text) => Token::Operand(
                text.parse::<f32>().expect("expected a parseable literal").to_bits(),
            ),
        })
        .collect()
}

fn apply(op: Op, lhs: f32, rhs: f32) -> f32 {
    match op {
        Op::Addition => lhs + rhs,
        Op::Subtraction => lhs - rhs,
        Op::Multiplication => lhs * rhs,
        Op::Division => lhs / rhs,
        Op::Modulo => lhs % rhs,
    }
}

/// Evaluates an expression: tokenize, then drive the machine, supplying the
/// floating-point arithmetic it asks for.
fn evaluate(expr: &str) -> Result<f32, String> {
    let scanned = tokenizer(expr).map_err(|e| e.message())?;
    let mut machine = Evaluator::new(to_eval_tokens(scanned));
    loop {
        match machine.advance() {
            StepOutcome::Apply { op, lhs, rhs } => {
                let result = apply(op, f32::from_bits(lhs), f32::from_bits(rhs));
                machine.provide(result.to_bits());
            }
            StepOutcome::Finished { result } => return Ok(f32::from_bits(result)),
            StepOutcome::Failed { error } => return Err(error.message()),
        }
    }
}

/// Runs the machine on already-built tokens and reports its final outcome.
fn run_machine(tokens: Vec<Token>) -> StepOutcome {
    let mut machine = Evaluator::new(tokens);
    loop {
        match machine.advance() {
            StepOutcome::Apply { op, lhs, rhs } => {
                let result = apply(op, f32::from_bits(lhs), f32::from_bits(rhs));
                machine.provide(result.to_bits());
            }
            done => return done,
        }
    }
}

#[test]
fn it_adds() {
    let result = evaluate("1 2 +");
    assert_eq!(result.unwrap(), 3.0);
}

#[test]
fn it_substracts() {
    let result = evaluate("1 2 -");
    assert_eq!(result.unwrap(), -1.0);
}

#[test]
fn it_multiplies() {
    let result = evaluate("6 7 *");
    assert_eq!(result.unwrap(), 42.0);
}

#[test]
fn it_divides() {
    let result = evaluate("1 2 /");
    assert_eq!(result.unwrap(), 0.5);
}

#[test]
fn it_modulos() {
    let result = evaluate("4 2 %");
    assert_eq!(result.unwrap(), 0.0);
}

#[test]
fn it_evaluates_complex_expressions() {
    // ((1+2) * 8 / (5-1) - 4 % 3) / 2
    let result = evaluate("1 2 + 8 * 5 1 - / 4 3 % - 2 /");
    assert_eq!(result.unwrap(), 2.5);
}

#[test]
fn it_allows_multiple_shitespaces() {
    let result = evaluate("1  2 +\t3 -");
    assert_eq!(result.unwrap(), 0.0);
}

#[test]
fn it_fails_for_unsupported_characters() {
    let result = evaluate("1 2 t");
    assert_eq!(result.unwrap_err(), "Cannot parse operand \"t\"");
}

#[test]
fn it_fails_for_unsufficient_operands() {
    let result = evaluate("1 +");
    assert_eq!(result.unwrap_err(), "Unsufficient operands before operator");
}

#[test]
fn it_fails_for_unsufficient_operators() {
    let result = evaluate("1 2 3 +");
    assert_eq!(
        result.unwrap_err(),
        "Remaining untreated operands. Probably missing operator."
    );
}

#[test]
fn each_operator_matches_host_arithmetic() {
    let a = 3.5f32;
    let b = -1.25f32;
    assert_eq!(evaluate("3.5 -1.25 +").unwrap(), a + b);
    assert_eq!(evaluate("3.5 -1.25 -").unwrap(), a - b);
    assert_eq!(evaluate("3.5 -1.25 *").unwrap(), a * b);
    assert_eq!(evaluate("3.5 -1.25 /").unwrap(), a / b);
    assert_eq!(evaluate("3.5 -1.25 %").unwrap(), a % b);
}

#[test]
fn division_by_zero_follows_float_semantics() {
    assert_eq!(evaluate("1 0 /").unwrap(), f32::INFINITY);
    assert_eq!(evaluate("-1 0 /").unwrap(), f32::NEG_INFINITY);
    assert!(evaluate("0 0 /").unwrap().is_nan());
    assert!(evaluate("1 0 %").unwrap().is_nan());
}

#[test]
fn whitespace_runs_do_not_change_the_result() {
    assert_eq!(evaluate("1  2 +\t3 -"), evaluate("1 2 + 3 -"));
    assert_eq!(evaluate("  1 \t\t 2  + "), evaluate("1 2 +"));
    assert_eq!(evaluate("1\n2 +\r\n3 -"), evaluate("1 2 + 3 -"));
}

#[test]
fn re_evaluation_yields_the_same_result() {
    let once = evaluate("1 2 + 8 * 5 1 - / 4 3 % - 2 /");
    let twice = evaluate("1 2 + 8 * 5 1 - / 4 3 % - 2 /");
    assert_eq!(once, twice);
    let err_once = evaluate("1 +");
    let err_twice = evaluate("1 +");
    assert_eq!(err_once, err_twice);
}

#[test]
fn empty_input_is_unbalanced() {
    assert_eq!(
        evaluate("").unwrap_err(),
        "Remaining untreated operands. Probably missing operator."
    );
    assert_eq!(
        evaluate(" \t \n").unwrap_err(),
        "Remaining untreated operands. Probably missing operator."
    );
}

#[test]
fn a_single_operand_evaluates_to_itself() {
    assert_eq!(evaluate("42").unwrap(), 42.0);
    assert_eq!(evaluate("-5").unwrap(), -5.0);
    assert_eq!(evaluate("+4 2 -").unwrap(), 2.0);
    assert_eq!(evaluate("3.14").unwrap(), 3.14);
}

#[test]
fn the_parse_error_names_the_offending_word() {
    let r = tokenizer("1 2.5.3 +");
    match r {
        Err(EvalError::ParseError { token }) => assert_eq!(token, "2.5.3"),
        other => panic!("expected a parse error, got {:?}", other),
    }
    let r = tokenizer("1 2 t");
    match r {
        Err(EvalError::ParseError { token }) => assert_eq!(token, "t"),
        other => panic!("expected a parse error, got {:?}", other),
    }
}

#[test]
fn tokens_are_classified_left_to_right() {
    let toks = tokenizer("1 2 +").unwrap();
    assert_eq!(toks.len(), 3);
    assert!(matches!(&toks[0], ScanTok::Number(text) if text == "1"));
    assert!(matches!(&toks[1], ScanTok::Number(text) if text == "2"));
    assert!(matches!(&toks[2], ScanTok::Operator(Op::Addition)));
}

#[test]
fn machine_reports_structured_errors() {
    let insufficient = run_machine(vec![
        Token::Operand(1.0f32.to_bits()),
        Token::Operator(Op::Addition),
    ]);
    assert_eq!(
        insufficient,
        StepOutcome::Failed {
            error: EvalError::InsufficientOperands
        }
    );
    let unbalanced = run_machine(vec![
        Token::Operand(1.0f32.to_bits()),
        Token::Operand(2.0f32.to_bits()),
        Token::Operand(3.0f32.to_bits()),
        Token::Operator(Op::Addition),
    ]);
    assert_eq!(
        unbalanced,
        StepOutcome::Failed {
            error: EvalError::UnbalancedExpression
        }
    );
    let empty = run_machine(Vec::new());
    assert_eq!(
        empty,
        StepOutcome::Failed {
            error: EvalError::UnbalancedExpression
        }
    );
}

#[test]
fn shape_checking_agrees_with_evaluation() {
    let ok = vec![
        Token::Operand(1.0f32.to_bits()),
        Token::Operand(2.0f32.to_bits()),
        Token::Operator(Op::Addition),
    ];
    assert_eq!(check_shape(&ok), Ok(()));
    let insufficient = vec![
        Token::Operand(1.0f32.to_bits()),
        Token::Operator(Op::Addition),
    ];
    assert_eq!(check_shape(&insufficient), Err(EvalError::InsufficientOperands));
    let unbalanced = vec![
        Token::Operand(1.0f32.to_bits()),
        Token::Operand(2.0f32.to_bits()),
        Token::Operand(3.0f32.to_bits()),
        Token::Operator(Op::Addition),
    ];
    assert_eq!(check_shape(&unbalanced), Err(EvalError::UnbalancedExpression));
    assert_eq!(check_shape(&Vec::new()), Err(EvalError::UnbalancedExpression));
}

#[test]
fn valid_shapes_always_reach_a_result() {
    // one operand and no operators, up to five operands and four operators
    assert!(evaluate("7").is_ok());
    assert!(evaluate("7 8 +").is_ok());
    assert!(evaluate("7 8 + 9 *").is_ok());
    assert!(evaluate("1 2 3 4 5 + + + +").is_ok());
}
