use std::collections::HashMap;

use evaluations::evaluator::{split_into_top_level_arguments, unfreeze_unary, EvalError, Evaluator};

fn eval(form: &str) -> Result<u64, EvalError> {
    let lookup: HashMap<String, u64> = HashMap::new();
    let mut memo = HashMap::new();
    Evaluator::new(&lookup, &mut memo).evaluate_nullary(form)
}

#[test]
fn split_respects_brackets() {
    assert_eq!(
        split_into_top_level_arguments("^(#),R(a,b,c),0"),
        vec!["^(#)", "R(a,b,c)", "0"]
    );
    assert_eq!(split_into_top_level_arguments(""), vec![""]);
    assert_eq!(split_into_top_level_arguments("a,,b"), vec!["a", "", "b"]);
    assert_eq!(split_into_top_level_arguments("(,)"), vec!["(,)"]);
}

#[test]
fn unfreeze_errors_name_the_unary() {
    assert_eq!(
        unfreeze_unary("Q"),
        Err(EvalError::Malformed("Q".to_string()))
    );
    assert_eq!(
        unfreeze_unary("^(Q)"),
        Err(EvalError::Malformed("Q".to_string()))
    );
    assert_eq!(
        unfreeze_unary("R(#,0)"),
        Err(EvalError::Malformed("R(#,0)".to_string()))
    );
}

#[test]
fn successor_overflow_names_the_form() {
    let mut lookup = HashMap::new();
    lookup.insert("X".to_string(), u64::MAX);
    let mut memo = HashMap::new();
    let result = Evaluator::new(&lookup, &mut memo).evaluate_nullary("^(X)");
    assert_eq!(result, Err(EvalError::Overflow("^(X)".to_string())));
}

#[test]
fn closed_form_iteration_overflow() {
    let mut lookup = HashMap::new();
    lookup.insert("B".to_string(), u64::MAX);
    let mut memo = HashMap::new();
    // ^(*) applied B times from 1 overflows in closed form.
    let result = Evaluator::new(&lookup, &mut memo).evaluate_nullary("R(^(#),^(0),B)");
    assert_eq!(result, Err(EvalError::Overflow("iteration".to_string())));
}

#[test]
fn multiplication_by_iterated_addition() {
    // R(R(^(#),#,^(^(^(0)))),0,^(^(0))): n -> n+3 applied twice from 0.
    assert_eq!(eval("R(R(^(#),#,^(^(^(0)))),0,^(^(0)))"), Ok(6));
    // the unary hole must be frozen in a nullary's operator position
    assert!(matches!(eval("R(^(*),0,0)"), Err(EvalError::Malformed(_))));
}

#[test]
fn malformed_error_carries_the_form() {
    assert_eq!(eval("Q(0)"), Err(EvalError::Malformed("Q(0)".to_string())));
    assert_eq!(eval("^(0"), Err(EvalError::Malformed("^(0".to_string())));
    assert_eq!(
        eval("R(^(#),0)"),
        Err(EvalError::Malformed("R(^(#),0)".to_string()))
    );
}

#[test]
fn memo_values_are_reused() {
    let lookup: HashMap<String, u64> = HashMap::new();
    let mut memo = HashMap::new();
    memo.insert("^(0)".to_string(), 7);
    let result = Evaluator::new(&lookup, &mut memo).evaluate_nullary("^(^(0))");
    assert_eq!(result, Ok(8));
    assert_eq!(memo.get("^(^(0))"), Some(&8));
}

#[test]
fn step_limit_is_not_hit_by_closed_forms() {
    let lookup: HashMap<String, u64> = HashMap::new();
    let mut memo = HashMap::new();
    let result = Evaluator::new(&lookup, &mut memo)
        .with_step_limit(0)
        .evaluate_nullary("R(^(#),0,^(^(^(0))))");
    assert_eq!(result, Ok(3));
}

#[test]
fn error_messages() {
    assert_eq!(
        EvalError::Overflow("successor".to_string()).message(),
        "u64 overflow while evaluating successor"
    );
    assert_eq!(EvalError::StepLimit(1000).message(), "step limit of 1000 exceeded");
    assert_eq!(
        EvalError::Malformed("Q(0)".to_string()).message(),
        "String Q(0) does not correspond to a well-formed expression"
    );
}

#[test]
fn successor_inherits_failure() {
    let mut lookup = HashMap::new();
    lookup.insert("X".to_string(), u64::MAX);
    let mut memo = HashMap::new();
    let inner = Evaluator::new(&lookup, &mut memo).evaluate_nullary("^(X)");
    let mut memo = HashMap::new();
    let outer = Evaluator::new(&lookup, &mut memo).evaluate_nullary("^(^(X))");
    assert_eq!(outer, inner);
    assert_eq!(outer, Err(EvalError::Overflow("^(X)".to_string())));
    let mut memo = HashMap::new();
    let malformed = Evaluator::new(&lookup, &mut memo).evaluate_nullary("^(^(Q))");
    assert_eq!(malformed, Err(EvalError::Malformed("Q".to_string())));
}

fn numeral(n: usize) -> String {
    format!("{}0{}", "^(".repeat(n), ")".repeat(n))
}

#[test]
fn iteration_overflows_only_when_the_result_does() {
    // Doubling 64 times: from 0 the result is 0, though 2^64 does not fit.
    let doubling = "R(R(^(#),^(^(0)),#),#,0)";
    assert_eq!(eval(&format!("R({},0,{})", doubling, numeral(64))), Ok(0));
    // From 1: 2^63 fits, 2^64 does not.
    assert_eq!(eval(&format!("R({},^(0),{})", doubling, numeral(63))), Ok(1u64 << 63));
    assert_eq!(
        eval(&format!("R({},^(0),{})", doubling, numeral(64))),
        Err(EvalError::Overflow("iteration".to_string()))
    );
}

#[test]
fn split_pieces_join_back() {
    for text in ["^(#),R(a,b,c),0", "", "a,,b", "(,)", "R(^(#),0,^(0))"] {
        assert_eq!(split_into_top_level_arguments(text).join(","), text);
    }
}

#[test]
fn memo_keeps_its_entries() {
    let lookup: HashMap<String, u64> = HashMap::new();
    let mut memo = HashMap::new();
    memo.insert("X".to_string(), 7);
    let result = Evaluator::new(&lookup, &mut memo).evaluate_nullary("^(^(0))");
    assert_eq!(result, Ok(2));
    assert_eq!(memo.get("X"), Some(&7));
    assert_eq!(memo.get("^(^(0))"), Some(&2));
}

#[test]
fn larger_step_limits_agree() {
    let doubling = "R(R(^(#),^(^(0)),#),#,0)";
    let form = format!("R({},^(0),{})", doubling, numeral(10));
    let run = |limit: Option<u64>| {
        let lookup: HashMap<String, u64> = HashMap::new();
        let mut memo = HashMap::new();
        let mut evaluator = Evaluator::new(&lookup, &mut memo);
        if let Some(l) = limit {
            evaluator = evaluator.with_step_limit(l);
        }
        evaluator.evaluate_nullary(&form)
    };
    let unlimited = run(None);
    assert_eq!(unlimited, Ok(1024));
    assert_eq!(run(Some(1_000_000)), unlimited);
    for limit in [0u64, 1, 2, 5] {
        let limited = run(Some(limit));
        assert!(limited == unlimited || limited == Err(EvalError::StepLimit(limit)));
    }
}

#[test]
fn unfreezing_undoes_freezing() {
    for unary in ["^(*)", "^(^(*))", "R(^(#),0,*)", "R(^(#),*,^(0))", "^(R(R(^(#),#,0),^(0),*))"] {
        let frozen = unary.replacen('*', "#", 1);
        assert_eq!(unfreeze_unary(&frozen), Ok(unary.to_string()));
    }
}

#[test]
fn failures_reach_iteration_superterms() {
    assert_eq!(eval("R(^(#),Q,0)"), Err(EvalError::Malformed("Q".to_string())));
    assert_eq!(eval("R(#,0,Q)"), Err(EvalError::Malformed("Q".to_string())));
    assert_eq!(eval("^(R(#,0,Q))"), Err(EvalError::Malformed("Q".to_string())));
    let mut lookup = HashMap::new();
    lookup.insert("X".to_string(), u64::MAX);
    let mut memo = HashMap::new();
    let base = Evaluator::new(&lookup, &mut memo).evaluate_nullary("R(^(#),^(X),0)");
    assert_eq!(base, Err(EvalError::Overflow("^(X)".to_string())));
    let mut memo = HashMap::new();
    let count = Evaluator::new(&lookup, &mut memo).evaluate_nullary("R(#,0,^(X))");
    assert_eq!(count, Err(EvalError::Overflow("^(X)".to_string())));
}
