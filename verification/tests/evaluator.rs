use std::collections::HashMap;

use evaluations::evaluator::{split_into_top_level_arguments, unfreeze_unary, EvalError, Evaluator};

fn eval(form: &str) -> Result<u64, EvalError> {
    let lookup: HashMap<String, u64> = HashMap::new();
    let mut memo = HashMap::new();
    Evaluator::new(&lookup, &mut memo).evaluate_nullary(form)
}

#[test]
fn parity_with_ruby_evaluator() {
    assert_eq!(eval("0"), Ok(0));
    assert_eq!(eval("^(0)"), Ok(1));
    assert_eq!(eval("^(^(^(0)))"), Ok(3));
    assert_eq!(eval("R(^(#),0,^(0))"), Ok(1));
    assert_eq!(eval("R(^(#),0,^(^(0)))"), Ok(2));
    assert_eq!(eval("R(^(#),^(^(0)),^(^(^(0))))"), Ok(5));
    assert_eq!(eval("R(R(^(#),#,^(^(0))),0,^(^(0)))"), Ok(4));
    assert_eq!(eval("R(R(^(#),^(^(0)),#),0,^(^(^(0))))"), Ok(6));
    assert_eq!(eval("R(R(R(^(#),^(^(0)),#),#,0),^(0),^(^(^(0))))"), Ok(8));
}

#[test]
fn zero_countdown_returns_base() {
    assert_eq!(eval("R(^(#),^(^(0)),0)"), Ok(2));
}

#[test]
fn doubling_tower_evaluates_in_closed_form() {
    let countdown = format!("{}0{}", "^(".repeat(30), ")".repeat(30));
    let form = format!("R(R(R(^(#),^(^(0)),#),#,0),^(0),{})", countdown);
    assert_eq!(eval(&form), Ok(1 << 30));
}

#[test]
fn lookup_short_circuits_evaluation() {
    let mut lookup = HashMap::new();
    // Deliberately wrong value proves the lookup was used instead of evaluation.
    lookup.insert("^(0)".to_string(), 41);
    let mut memo = HashMap::new();
    let mut evaluator = Evaluator::new(&lookup, &mut memo);
    assert_eq!(evaluator.evaluate_nullary("^(^(0))"), Ok(42));
}

#[test]
fn memo_is_populated_for_subexpressions() {
    let lookup: HashMap<String, u64> = HashMap::new();
    let mut memo = HashMap::new();
    Evaluator::new(&lookup, &mut memo)
        .evaluate_nullary("^(^(0))")
        .unwrap();
    assert_eq!(memo.get("^(0)"), Some(&1));
    assert_eq!(memo.get("^(^(0))"), Some(&2));
}

#[test]
fn malformed_forms_error() {
    assert!(matches!(eval("*"), Err(EvalError::Malformed(_))));
    assert!(matches!(eval("Q(0)"), Err(EvalError::Malformed(_))));
    assert!(matches!(eval("R(^(#),0)"), Err(EvalError::Malformed(_))));
}

#[test]
fn step_limit_stops_runaway_iteration() {
    let lookup: HashMap<String, u64> = HashMap::new();
    let mut memo = HashMap::new();
    // R(^(#),*,0) computes the identity but is represented non-linearly
    // (IterConstBase), so iterating it 2^30 times must actually loop,
    // without ever overflowing. Only the step limit can stop it.
    let countdown = format!("{}0{}", "^(".repeat(30), ")".repeat(30));
    let two_to_thirty = format!("R(R(R(^(#),^(^(0)),#),#,0),^(0),{})", countdown);
    let slow_identity_iter = format!("R(R(^(#),#,0),0,{})", two_to_thirty);
    let result = Evaluator::new(&lookup, &mut memo)
        .with_step_limit(1_000)
        .evaluate_nullary(&slow_identity_iter);
    assert_eq!(result, Err(EvalError::StepLimit(1_000)));
}

#[test]
fn unfreeze_matches_ruby_semantics() {
    assert_eq!(unfreeze_unary("#"), Ok("*".to_string()));
    assert_eq!(unfreeze_unary("^(#)"), Ok("^(*)".to_string()));
    assert_eq!(
        unfreeze_unary("R(^(#),#,^(0))"),
        Ok("R(^(#),*,^(0))".to_string())
    );
    assert_eq!(
        unfreeze_unary("R(^(#),^(0),#)"),
        Ok("R(^(#),^(0),*)".to_string())
    );
    assert!(matches!(
        unfreeze_unary("R(^(#),^(0),^(0))"),
        Err(EvalError::Malformed(_))
    ));
}
