//! Evaluation of nullary forms to the numbers they denote.
use vstd::prelude::*;
use vstd::string::*;
use std::collections::HashMap;
use crate::meaning::{lemma_closed_form, law_evaluation_is_sound, truthful, value_of};

use crate::form::{
    chars_of, inner_spec, lemma_split_lengths, lemma_unfreeze_len, split_from, split_spec,
    unfreeze_spec, Failure,
};

verus! {

/// Why an evaluation could not produce a value. Overflow and Malformed are
/// permanent verdicts (they propagate to every superterm); StepLimit only
/// means "not evaluated within this run's budget".
#[derive(Debug, PartialEq, Eq)]
pub enum EvalError {
    Overflow(String),
    StepLimit(u64),
    Malformed(String),
}

impl View for EvalError {
    type V = Failure;

    open spec fn view(&self) -> Failure {
        match self {
            EvalError::Overflow(context) => Failure::Overflow(context@),
            EvalError::StepLimit(limit) => Failure::StepLimit(*limit),
            EvalError::Malformed(expression) => Failure::Malformed(expression@),
        }
    }
}

/// The sentence that reports an evaluation error.
pub open spec fn error_message(e: Failure) -> Seq<char> {
    match e {
        Failure::Overflow(context) => "u64 overflow while evaluating "@ + context,
        Failure::StepLimit(limit) => "step limit of "@ + crate::text::decimal(limit as nat) + " exceeded"@,
        Failure::Malformed(expression) => "String "@ + expression
            + " does not correspond to a well-formed expression"@,
        Failure::Panic => Seq::empty(),
    }
}

impl EvalError {
    /// The sentence that reports this error.
    pub fn message(&self) -> (r: String)
        ensures
            r@ == error_message(self@),
    {
        match self {
            EvalError::Overflow(context) => {
                let mut r = "u64 overflow while evaluating ".to_string();
                r.append(context.as_str());
                r
            },
            EvalError::StepLimit(limit) => {
                let mut r = "step limit of ".to_string();
                crate::text::push_decimal(&mut r, *limit);
                r.append(" exceeded");
                r
            },
            EvalError::Malformed(expression) => {
                let mut r = "String ".to_string();
                r.append(expression.as_str());
                r.append(" does not correspond to a well-formed expression");
                r
            },
        }
    }
}

/// The mathematical view of an evaluation result.
pub open spec fn result_view<T>(r: Result<T, EvalError>) -> Result<T, Failure> {
    match r {
        Ok(v) => Ok(v),
        Err(e) => Err(e@),
    }
}

pub open spec fn str_result_view(r: Result<&str, EvalError>) -> Result<Seq<char>, Failure> {
    match r {
        Ok(v) => Ok(v@),
        Err(e) => Err(e@),
    }
}

pub open spec fn string_result_view(r: Result<String, EvalError>) -> Result<Seq<char>, Failure> {
    match r {
        Ok(v) => Ok(v@),
        Err(e) => Err(e@),
    }
}

fn malformed_nullary(expression: &str) -> (e: EvalError)
    ensures
        e@ == Failure::Malformed(expression@),
{
    EvalError::Malformed(expression.to_string())
}

fn malformed_unary(expression: &str) -> (e: EvalError)
    ensures
        e@ == Failure::Malformed(expression@),
{
    EvalError::Malformed(expression.to_string())
}

fn overflow(context: &str) -> (e: EvalError)
    ensures
        e@ == Failure::Overflow(context@),
{
    EvalError::Overflow(context.to_string())
}

/// Whether a text is exactly the one character `c`.
fn is_single(s: &str, c: char) -> (r: bool)
    ensures
        r == (s@ == seq![c]),
{
    let cs = chars_of(s);
    if cs.len() == 1 && cs[0] == c {
        assert(cs@ =~= seq![c]);
        true
    } else {
        false
    }
}

/// Whether a text begins with the character `c`.
fn starts_with_char(s: &str, c: char) -> (r: bool)
    ensures
        r == (s@.len() > 0 && s@[0] == c),
{
    let cs = chars_of(s);
    cs.len() > 0 && cs[0] == c
}

/// "^(x)" -> "x", "R(a,b,c)" -> "a,b,c"
fn inner(expression: &str) -> (r: Result<&str, EvalError>)
    requires
        inner_spec(expression@) != Err::<Seq<char>, Failure>(Failure::Panic),
    ensures
        str_result_view(r) == inner_spec(expression@),
{
    let cs = chars_of(expression);
    let n = cs.len();
    if n < 3 || cs[n - 1] != ')' {
        return Err(malformed_nullary(expression));
    }
    Ok(expression.substring_char(2, n - 1))
}

pub open spec fn views_of(parts: Seq<&str>) -> Seq<Seq<char>> {
    parts.map_values(|p: &str| p@)
}

/// The top-level arguments of an argument list: its pieces between commas
/// that no bracket encloses.
pub fn split_into_top_level_arguments(arguments: &str) -> (parts: Vec<&str>)
    ensures
        views_of(parts@) == split_spec(arguments@),
{
    let cs = chars_of(arguments);
    let mut parts: Vec<&str> = Vec::new();
    let mut depth: i128 = 0;
    let mut start: usize = 0;
    let mut index: usize = 0;
    assert(views_of(parts@) =~= Seq::<Seq<char>>::empty());
    while index < cs.len()
        invariant
            cs@ == arguments@,
            0 <= start <= index <= cs.len(),
            -(index as int) <= depth <= index as int,
            split_from(cs@, index as int, depth as int, start as int, views_of(parts@))
                == split_spec(arguments@),
        decreases cs.len() - index,
    {
        let character = cs[index];
        if character == '(' {
            depth = depth + 1;
        } else if character == ')' {
            depth = depth - 1;
        } else if character == ',' && depth == 0 {
            let piece = arguments.substring_char(start, index);
            let ghost before = parts@;
            parts.push(piece);
            assert(views_of(parts@) =~= views_of(before).push(cs@.subrange(
                start as int,
                index as int,
            )));
            start = index + 1;
        }
        index = index + 1;
    }
    let last = arguments.substring_char(start, cs.len());
    let ghost before = parts@;
    parts.push(last);
    assert(views_of(parts@) =~= views_of(before).push(cs@.subrange(
        start as int,
        cs@.len() as int,
    )));
    parts
}

/// A frozen unary (hole written `#`) with its hole written `*`.
pub fn unfreeze_unary(unary: &str) -> (r: Result<String, EvalError>)
    requires
        unfreeze_spec(unary@) != Err::<Seq<char>, Failure>(Failure::Panic),
    ensures
        string_result_view(r) == unfreeze_spec(unary@),
    decreases unary@.len(),
{
    if is_single(unary, '#') {
        let r = "*".to_string();
        proof {
            reveal_strlit("*");
            assert(r@ =~= seq!['*']);
        }
        return Ok(r);
    }
    if starts_with_char(unary, '^') {
        let i = match inner(unary) {
            Ok(i) => i,
            Err(e) => return Err(e),
        };
        let x = match unfreeze_unary(i) {
            Ok(x) => x,
            Err(e) => return Err(e),
        };
        let mut r = "^(".to_string();
        r.append(x.as_str());
        r.append(")");
        proof {
            reveal_strlit("^(");
            reveal_strlit(")");
            assert(r@ =~= seq!['^', '('] + x@ + seq![')']);
        }
        return Ok(r);
    }
    if !starts_with_char(unary, 'R') {
        return Err(malformed_unary(unary));
    }
    let i = match inner(unary) {
        Ok(i) => i,
        Err(e) => return Err(e),
    };
    let arguments = split_into_top_level_arguments(i);
    assert(views_of(arguments@).len() == arguments@.len());
    if arguments.len() != 3 {
        return Err(malformed_unary(unary));
    }
    assert(views_of(arguments@)[1] == arguments@[1]@);
    assert(views_of(arguments@)[0] == arguments@[0]@);
    assert(views_of(arguments@)[2] == arguments@[2]@);
    if is_single(arguments[1], '#') {
        let mut r = "R(".to_string();
        r.append(arguments[0]);
        r.append(",*,");
        r.append(arguments[2]);
        r.append(")");
        proof {
            reveal_strlit("R(");
            reveal_strlit(",*,");
            reveal_strlit(")");
            assert(r@ =~= seq!['R', '('] + arguments@[0]@ + seq![',', '*', ','] + arguments@[2]@
                + seq![')']);
        }
        return Ok(r);
    }
    if !is_single(arguments[2], '#') {
        return Err(malformed_unary(unary));
    }
    let mut r = "R(".to_string();
    r.append(arguments[0]);
    r.append(",");
    r.append(arguments[1]);
    r.append(",*)");
    proof {
        reveal_strlit("R(");
        reveal_strlit(",");
        reveal_strlit(",*)");
        assert(r@ =~= seq!['R', '('] + arguments@[0]@ + seq![','] + arguments@[1]@ + seq![
            ',',
            '*',
            ')',
        ]);
    }
    Ok(r)
}


// ---------------------------------------------------------------------------
// Known values: the memo and the caller's lookup.
// ---------------------------------------------------------------------------

/// The content of a text-keyed memo as a map from character sequences.
pub open spec fn text_map(m: &HashMap<String, u64>) -> Map<Seq<char>, u64> {
    m.deep_view()
}

/// `HashMap::get` on a text-keyed map, read by a `&str`: the value stored
/// under the text with the same characters, if any.
#[verifier::external_body]
pub(crate) fn memo_get(m: &HashMap<String, u64>, key: &str) -> (r: Option<u64>)
    ensures
        r == text_map(m).get(key@),
{
    m.get(key).copied()
}

/// `HashMap::insert` on a text-keyed map: the key's characters now map to
/// `value`, every other entry is kept.
#[verifier::external_body]
fn memo_insert(m: &mut HashMap<String, u64>, key: String, value: u64)
    ensures
        text_map(final(m)) == text_map(old(m)).insert(key@, value),
{
    m.insert(key, value);
}

/// Source of already-known nullary values (store layers, pending batches, ...).
/// The evaluator consults it before doing any structural work.
pub trait EvalLookup {
    spec fn spec_lookup(&self, key: Seq<char>) -> Option<u64>;

    fn lookup(&self, key: &str) -> (r: Option<u64>)
        ensures
            r == self.spec_lookup(key@),
    ;
}

impl EvalLookup for HashMap<String, u64> {
    open spec fn spec_lookup(&self, key: Seq<char>) -> Option<u64> {
        text_map(self).get(key)
    }

    fn lookup(&self, key: &str) -> (r: Option<u64>) {
        memo_get(self, key)
    }
}

// ---------------------------------------------------------------------------
// Compiled unary operators.
// ---------------------------------------------------------------------------

/// A compiled unary operator. Constant nullary arguments are evaluated once at
/// compile time, and affine operators (n -> mul*n + add) are kept in closed
/// form so applying them, even iterated, never loops.
pub enum Unary {
    /// n -> mul*n + add
    Linear { mul: u64, add: u64 },
    /// n -> inner(n) + 1 (only when inner could not be collapsed to Linear)
    Succ(Box<Unary>),
    /// n -> op applied n times starting from base
    IterConstBase { op: Box<Unary>, base: u64 },
    /// n -> op applied count times starting from n
    IterFixedCount { op: Box<Unary>, count: u64 },
}

pub open spec fn text_unary_application() -> Seq<char> {
    "unary application"@
}

pub open spec fn text_successor() -> Seq<char> {
    "successor"@
}

pub open spec fn text_iteration() -> Seq<char> {
    "iteration"@
}

/// The k-fold composition of n -> mul*n + add, as its coefficients
/// (mul^k, add * (mul^(k-1) + ... + 1)), when they fit in u64.
pub open spec fn compose_spec(mul: u64, add: u64, k: u64) -> Option<(u64, u64)> {
    if k == 0 {
        Some((1, 0))
    } else if mul == 1 {
        if add * k <= u64::MAX {
            Some((1, (add * k) as u64))
        } else {
            None
        }
    } else if k > u32::MAX {
        None
    } else if vstd::arithmetic::power::pow(mul as int, k as nat) > u64::MAX {
        None
    } else {
        let mul_k = vstd::arithmetic::power::pow(mul as int, k as nat);
        let geometric_sum = if mul == 0 {
            1
        } else {
            (mul_k - 1) / (mul - 1)
        };
        if add * geometric_sum <= u64::MAX {
            Some((mul_k as u64, (add * geometric_sum) as u64))
        } else {
            None
        }
    }
}

/// One unit of work under an optional limit: the counter saturates at
/// u64::MAX, and exceeding the limit is a failure.
pub open spec fn step_spec(limit: Option<u64>, steps: u64) -> (Result<(), Failure>, u64) {
    let next = if steps == u64::MAX {
        steps
    } else {
        (steps + 1) as u64
    };
    match limit {
        Some(l) => if next > l {
            (Err(Failure::StepLimit(l)), next)
        } else {
            (Ok(()), next)
        },
        None => (Ok(()), next),
    }
}

/// Counting steps one call after another from a fresh counter: the `n`-th
/// call (with `n - 1` counted before it) leaves the counter at `n`, and fails,
/// on that limit, exactly when a limit below `n` was set; with no limit
/// every call succeeds.
pub proof fn law_nth_step(limit: Option<u64>, n: u64)
    requires
        1 <= n,
    ensures
        step_spec(limit, (n - 1) as u64).1 == n,
        step_spec(limit, (n - 1) as u64).0 is Err <==> (limit matches Some(l) && n > l),
        step_spec(limit, (n - 1) as u64).0 matches Err(e) ==> limit matches Some(l) && e == Failure::StepLimit(l),
{
}

/// Applying a compiled unary to `n`, counting one step per application.
pub open spec fn apply_spec(limit: Option<u64>, steps: u64, unary: Unary, n: u64) -> (
    Result<u64, Failure>,
    u64,
)
    decreases unary, 1nat, 0nat,
{
    let (counted, steps1) = step_spec(limit, steps);
    match counted {
        Err(e) => (Err(e), steps1),
        Ok(_) => match unary {
            Unary::Linear { mul, add } => if mul * n + add <= u64::MAX {
                (Ok((mul * n + add) as u64), steps1)
            } else {
                (Err(Failure::Overflow(text_unary_application())), steps1)
            },
            Unary::Succ(op) => {
                let (r, steps2) = apply_spec(limit, steps1, *op, n);
                match r {
                    Err(e) => (Err(e), steps2),
                    Ok(v) => if v + 1 <= u64::MAX {
                        (Ok((v + 1) as u64), steps2)
                    } else {
                        (Err(Failure::Overflow(text_successor())), steps2)
                    },
                }
            },
            Unary::IterConstBase { op, base } => iterate_spec(limit, steps1, *op, base, n),
            Unary::IterFixedCount { op, count } => iterate_spec(limit, steps1, *op, n, count),
        },
    }
}

/// n -> mul*n + add applied `k` times starting from `base`, without bounds.
pub open spec fn linear_iterate(mul: u64, add: u64, base: nat, k: nat) -> nat
    decreases k,
{
    if k == 0 {
        base
    } else {
        linear_iterate(mul, add, (mul as nat) * base + (add as nat), (k - 1) as nat)
    }
}

/// `op` applied `countdown` times starting from `base`; an affine operator
/// gives its exact result when that fits in u64 (an overflow otherwise) and
/// counts no step.
pub open spec fn iterate_spec(
    limit: Option<u64>,
    steps: u64,
    op: Unary,
    base: u64,
    countdown: u64,
) -> (Result<u64, Failure>, u64)
    decreases op, 2nat, countdown,
{
    match op {
        Unary::Linear { mul, add } => if linear_iterate(mul, add, base as nat, countdown as nat)
            <= u64::MAX {
            (Ok(linear_iterate(mul, add, base as nat, countdown as nat) as u64), steps)
        } else {
            (Err(Failure::Overflow(text_iteration())), steps)
        },
        _ => if countdown == 0 {
            (Ok(base), steps)
        } else {
            let (r, steps1) = apply_spec(limit, steps, op, base);
            match r {
                Err(e) => (Err(e), steps1),
                Ok(v) => iterate_spec(limit, steps1, op, v, (countdown - 1) as u64),
            }
        },
    }
}


/// `^` around a compiled unary: affine operators absorb the successor while
/// the constant still fits.
pub open spec fn succ_wrap(compiled: Unary) -> Unary {
    match compiled {
        Unary::Linear { mul, add } => if add + 1 <= u64::MAX {
            Unary::Linear { mul, add: (add + 1) as u64 }
        } else {
            Unary::Succ(Box::new(Unary::Linear { mul, add }))
        },
        other => Unary::Succ(Box::new(other)),
    }
}

/// `R(op,count,*)`: iterating an affine operator a fixed number of times is
/// itself affine when the coefficients fit.
pub open spec fn collapse(op: Unary, count: u64) -> Unary {
    match op {
        Unary::Linear { mul, add } => match compose_spec(mul, add, count) {
            Some((m, a)) => Unary::Linear { mul: m, add: a },
            None => Unary::IterFixedCount { op: Box::new(op), count },
        },
        _ => Unary::IterFixedCount { op: Box::new(op), count },
    }
}

/// The memo state an evaluation threads through: known values and steps.
pub type Memo = Map<Seq<char>, u64>;

/// Evaluating a nullary form: known values first (memo, then lookup), else by
/// its structure; every value found is memoised.
pub open spec fn nullary_spec<L: EvalLookup>(
    lookup: L,
    limit: Option<u64>,
    memo: Memo,
    steps: u64,
    s: Seq<char>,
) -> (Result<u64, Failure>, Memo, u64)
    decreases s.len(),
{
    if memo.contains_key(s) {
        (Ok(memo[s]), memo, steps)
    } else if lookup.spec_lookup(s) is Some {
        let v = lookup.spec_lookup(s)->0;
        (Ok(v), memo.insert(s, v), steps)
    } else if s == seq!['0'] {
        (Ok(0), memo.insert(s, 0), steps)
    } else if s.len() > 0 && s[0] == '^' {
        match inner_spec(s) {
            Err(e) => (Err(e), memo, steps),
            Ok(i) => {
                let (r, memo1, steps1) = nullary_spec(lookup, limit, memo, steps, i);
                match r {
                    Err(e) => (Err(e), memo1, steps1),
                    Ok(v) => if v + 1 <= u64::MAX {
                        (Ok((v + 1) as u64), memo1.insert(s, (v + 1) as u64), steps1)
                    } else {
                        (Err(Failure::Overflow(s)), memo1, steps1)
                    },
                }
            },
        }
    } else if s.len() > 0 && s[0] == 'R' {
        match inner_spec(s) {
            Err(e) => (Err(e), memo, steps),
            Ok(i) => {
                let a = split_spec(i);
                proof {
                    lemma_split_lengths(i);
                    lemma_unfreeze_len(a[0]);
                }
                if a.len() != 3 {
                    (Err(Failure::Malformed(s)), memo, steps)
                } else {
                    match unfreeze_spec(a[0]) {
                        Err(e) => (Err(e), memo, steps),
                        Ok(f) => {
                            let (cu, memo1, steps1) = compile_spec(lookup, limit, memo, steps, f);
                            match cu {
                                Err(e) => (Err(e), memo1, steps1),
                                Ok(unary) => {
                                    let (rb, memo2, steps2) = nullary_spec(
                                        lookup,
                                        limit,
                                        memo1,
                                        steps1,
                                        a[1],
                                    );
                                    match rb {
                                        Err(e) => (Err(e), memo2, steps2),
                                        Ok(base) => {
                                            let (rc, memo3, steps3) = nullary_spec(
                                                lookup,
                                                limit,
                                                memo2,
                                                steps2,
                                                a[2],
                                            );
                                            match rc {
                                                Err(e) => (Err(e), memo3, steps3),
                                                Ok(count) => {
                                                    let (ri, steps4) = iterate_spec(
                                                        limit,
                                                        steps3,
                                                        unary,
                                                        base,
                                                        count,
                                                    );
                                                    match ri {
                                                        Err(e) => (Err(e), memo3, steps4),
                                                        Ok(v) => (Ok(v), memo3.insert(s, v), steps4),
                                                    }
                                                },
                                            }
                                        },
                                    }
                                },
                            }
                        },
                    }
                }
            },
        }
    } else {
        (Err(Failure::Malformed(s)), memo, steps)
    }
}

/// Compiling a unary form (hole written `*`) to a `Unary`, evaluating the
/// constant nullaries it holds.
pub open spec fn compile_spec<L: EvalLookup>(
    lookup: L,
    limit: Option<u64>,
    memo: Memo,
    steps: u64,
    u: Seq<char>,
) -> (Result<Unary, Failure>, Memo, u64)
    decreases u.len(),
{
    if u == seq!['*'] {
        (Ok(Unary::Linear { mul: 1, add: 0 }), memo, steps)
    } else if u.len() > 0 && u[0] == '^' {
        match inner_spec(u) {
            Err(e) => (Err(e), memo, steps),
            Ok(i) => {
                let (r, memo1, steps1) = compile_spec(lookup, limit, memo, steps, i);
                match r {
                    Err(e) => (Err(e), memo1, steps1),
                    Ok(c) => (Ok(succ_wrap(c)), memo1, steps1),
                }
            },
        }
    } else if !(u.len() > 0 && u[0] == 'R') {
        (Err(Failure::Malformed(u)), memo, steps)
    } else {
        match inner_spec(u) {
            Err(e) => (Err(e), memo, steps),
            Ok(i) => {
                let a = split_spec(i);
                proof {
                    lemma_split_lengths(i);
                    lemma_unfreeze_len(a[0]);
                }
                if a.len() != 3 {
                    (Err(Failure::Malformed(u)), memo, steps)
                } else {
                    match unfreeze_spec(a[0]) {
                        Err(e) => (Err(e), memo, steps),
                        Ok(f) => {
                            let (rop, memo1, steps1) = compile_spec(lookup, limit, memo, steps, f);
                            match rop {
                                Err(e) => (Err(e), memo1, steps1),
                                Ok(op) => if a[1] == seq!['*'] {
                                    let (rb, memo2, steps2) = nullary_spec(
                                        lookup,
                                        limit,
                                        memo1,
                                        steps1,
                                        a[2],
                                    );
                                    match rb {
                                        Err(e) => (Err(e), memo2, steps2),
                                        Ok(base) => (
                                            Ok(Unary::IterConstBase { op: Box::new(op), base }),
                                            memo2,
                                            steps2,
                                        ),
                                    }
                                } else if a[2] != seq!['*'] {
                                    (Err(Failure::Malformed(u)), memo1, steps1)
                                } else {
                                    let (rc, memo2, steps2) = nullary_spec(
                                        lookup,
                                        limit,
                                        memo1,
                                        steps1,
                                        a[1],
                                    );
                                    match rc {
                                        Err(e) => (Err(e), memo2, steps2),
                                        Ok(count) => (Ok(collapse(op, count)), memo2, steps2),
                                    }
                                },
                            }
                        },
                    }
                }
            },
        }
    }
}


// ---------------------------------------------------------------------------
// The evaluator.
// ---------------------------------------------------------------------------

/// `u64::checked_pow`: `base` to the power `exp`, when it fits in u64.
#[verifier::external_body]
fn checked_pow(base: u64, exp: u32) -> (r: Option<u64>)
    ensures
        r == (if vstd::arithmetic::power::pow(base as int, exp as nat) <= u64::MAX {
            Some(vstd::arithmetic::power::pow(base as int, exp as nat) as u64)
        } else {
            None::<u64>
        }),
{
    base.checked_pow(exp)
}

// The k-fold composition of n -> mul*n + add is
// n -> mul^k * n + add * (mul^(k-1) + ... + 1). None if the coefficients
// don't fit in u64.
fn compose_linear(mul: u64, add: u64, k: u64) -> (r: Option<(u64, u64)>)
    ensures
        r == compose_spec(mul, add, k),
{
    if k == 0 {
        return Some((1, 0));
    }
    if mul == 1 {
        return match add.checked_mul(k) {
            Some(scaled) => Some((1, scaled)),
            None => None,
        };
    }
    if k > 4294967295u64 {
        return None;
    }
    let exponent = k as u32;
    let mul_k = match checked_pow(mul, exponent) {
        Some(mul_k) => mul_k,
        None => return None,
    };
    let geometric_sum = if mul == 0 {
        1
    } else {
        proof {
            vstd::arithmetic::power::lemma_pow_positive(mul as int, k as nat);
        }
        (mul_k - 1) / (mul - 1)
    };
    match add.checked_mul(geometric_sum) {
        Some(add_k) => Some((mul_k, add_k)),
        None => None,
    }
}

/// Iterating n -> mul*n + add never goes down when `mul` is at least one.
proof fn lemma_linear_grows(mul: u64, add: u64, x: nat, k: nat)
    requires
        mul >= 1,
    ensures
        linear_iterate(mul, add, x, k) >= x,
    decreases k,
{
    if k > 0 {
        let next = (mul as nat) * x + (add as nat);
        assert(next >= x) by (nonlinear_arith)
            requires
                mul >= 1,
                next == (mul as nat) * x + (add as nat),
        ;
        lemma_linear_grows(mul, add, next, (k - 1) as nat);
    }
}

/// A fixed point of n -> mul*n + add stays put.
proof fn lemma_linear_fixed(mul: u64, add: u64, x: nat, k: nat)
    requires
        (mul as nat) * x + (add as nat) == x,
    ensures
        linear_iterate(mul, add, x, k) == x,
    decreases k,
{
    if k > 0 {
        lemma_linear_fixed(mul, add, x, (k - 1) as nat);
    }
}

/// Adding `add` `k` times.
proof fn lemma_linear_of_one(mul: u64, add: u64, x: nat, k: nat)
    requires
        mul == 1,
    ensures
        linear_iterate(mul, add, x, k) == x + (add as nat) * k,
    decreases k,
{
    if k > 0 {
        let next = (mul as nat) * x + (add as nat);
        assert(next == x + (add as nat));
        lemma_linear_of_one(mul, add, next, (k - 1) as nat);
        assert(linear_iterate(mul, add, x, k) == linear_iterate(mul, add, next, (k - 1) as nat));
        assert((add as nat) * k == (add as nat) + (add as nat) * ((k - 1) as nat)) by (nonlinear_arith)
            requires
                k > 0,
        ;
    } else {
        assert((add as nat) * k == 0) by (nonlinear_arith)
            requires
                k == 0,
        ;
    }
}

/// n -> mul*n + add applied `count` times starting from `base`, one step at a
/// time, stopping at an overflow or a fixed point; for `mul` other than one
/// the values either settle or pass u64::MAX within a few dozen steps.
fn linear_steps(mul: u64, add: u64, base: u64, count: u64) -> (r: Option<u64>)
    requires
        mul != 1,
    ensures
        r matches Some(v) ==> v == linear_iterate(mul, add, base as nat, count as nat),
        r is None ==> linear_iterate(mul, add, base as nat, count as nat) > u64::MAX,
{
    let mut v = base;
    let mut left = count;
    while left > 0
        invariant
            mul != 1,
            linear_iterate(mul, add, base as nat, count as nat) == linear_iterate(
                mul,
                add,
                v as nat,
                left as nat,
            ),
        decreases left,
    {
        let ghost f = (mul as nat) * (v as nat) + (add as nat);
        assert(linear_iterate(mul, add, v as nat, left as nat) == linear_iterate(
            mul,
            add,
            f,
            (left - 1) as nat,
        ));
        let next = match mul.checked_mul(v) {
            Some(p) => match p.checked_add(add) {
                Some(n) => n,
                None => {
                    proof {
                        lemma_linear_grows(mul, add, f, (left - 1) as nat);
                    }
                    return None;
                },
            },
            None => {
                proof {
                    assert(mul >= 1);
                    lemma_linear_grows(mul, add, f, (left - 1) as nat);
                }
                return None;
            },
        };
        if next == v {
            proof {
                lemma_linear_fixed(mul, add, v as nat, left as nat);
            }
            return Some(v);
        }
        v = next;
        left = left - 1;
    }
    Some(v)
}

/// Evaluates nullary forms against a lookup of known values, memoising what
/// it computes in the caller's memo.
pub struct Evaluator<'a, L: EvalLookup> {
    lookup: &'a L,
    memo: &'a mut HashMap<String, u64>,
    steps: u64,
    step_limit: Option<u64>,
}

impl<'a, L: EvalLookup> Evaluator<'a, L> {
    /// The lookup consulted after the memo.
    pub closed spec fn lookup_view(&self) -> L {
        *self.lookup
    }

    /// The values memoised so far, by form.
    pub closed spec fn memo_view(&self) -> Memo {
        text_map(self.memo)
    }

    /// The unary applications counted so far.
    pub closed spec fn step_count(&self) -> u64 {
        self.steps
    }

    /// The bound on unary applications, if any.
    pub closed spec fn limit(&self) -> Option<u64> {
        self.step_limit
    }

    /// The outcome of evaluating the nullary form `s` from this state: the
    /// result, the memo after it, and the step count after it.
    pub open spec fn outcome(&self, s: Seq<char>) -> (Result<u64, Failure>, Memo, u64) {
        nullary_spec(self.lookup_view(), self.limit(), self.memo_view(), self.step_count(), s)
    }

    pub fn new(lookup: &'a L, memo: &'a mut HashMap<String, u64>) -> (r: Self)
        ensures
            r.lookup_view() == *lookup,
            r.memo_view() == text_map(old(memo)),
            r.step_count() == 0,
            r.limit() is None,
    {
        Evaluator { lookup, memo, steps: 0, step_limit: None }
    }

    /// Bound the number of unary applications so a pathological form errors
    /// out instead of wedging the process.
    pub fn with_step_limit(self, limit: u64) -> (r: Self)
        ensures
            r.lookup_view() == self.lookup_view(),
            r.memo_view() == self.memo_view(),
            r.step_count() == self.step_count(),
            r.limit() == Some(limit),
    {
        let mut evaluator = self;
        evaluator.step_limit = Some(limit);
        evaluator
    }

    pub fn evaluate_nullary(&mut self, nullary: &str) -> (r: Result<u64, EvalError>)
        requires
            old(self).outcome(nullary@).0 != Err::<u64, Failure>(Failure::Panic),
        ensures
            result_view(r) == old(self).outcome(nullary@).0,
            final(self).memo_view() == old(self).outcome(nullary@).1,
            final(self).step_count() == old(self).outcome(nullary@).2,
            final(self).lookup_view() == old(self).lookup_view(),
            final(self).limit() == old(self).limit(),
            truthful(old(self).lookup_view(), old(self).memo_view()) ==> (r matches Ok(v) ==> value_of(
                nullary@,
            ) == Some(v as nat)),
    {
        proof {
            if truthful(old(self).lookup_view(), old(self).memo_view()) {
                law_evaluation_is_sound(
                    old(self).lookup_view(),
                    old(self).limit(),
                    old(self).memo_view(),
                    old(self).step_count(),
                    nullary@,
                );
            }
        }
        let mut owned: HashMap<String, u64> = HashMap::new();
        std::mem::swap(&mut owned, &mut *self.memo);
        let mut run = Evaluation {
            lookup: self.lookup,
            memo: owned,
            steps: self.steps,
            step_limit: self.step_limit,
        };
        let r = run.evaluate_nullary(nullary);
        let Evaluation { memo: after, steps, .. } = run;
        *self.memo = after;
        self.steps = steps;
        r
    }
}

/// Evaluates one nullary from `memo` and `lookup`, bounded by `limit` unary
/// applications, and gives back the result with the memo after it.
pub fn evaluate_with_memo<L: EvalLookup>(
    lookup: &L,
    memo: HashMap<String, u64>,
    limit: u64,
    nullary: &str,
) -> (r: (Result<u64, EvalError>, HashMap<String, u64>))
    requires
        nullary_spec(*lookup, Some(limit), text_map(&memo), 0, nullary@).0 != Err::<u64, Failure>(
            Failure::Panic,
        ),
    ensures
        result_view(r.0) == nullary_spec(*lookup, Some(limit), text_map(&memo), 0, nullary@).0,
        text_map(&r.1) == nullary_spec(*lookup, Some(limit), text_map(&memo), 0, nullary@).1,
{
    let mut run = Evaluation { lookup, memo, steps: 0, step_limit: Some(limit) };
    let r = run.evaluate_nullary(nullary);
    let Evaluation { memo: after, .. } = run;
    (r, after)
}

/// The state of one evaluation: the lookup, the memo it fills, and the
/// unary applications counted against the limit.
struct Evaluation<'a, L: EvalLookup> {
    lookup: &'a L,
    memo: HashMap<String, u64>,
    steps: u64,
    step_limit: Option<u64>,
}

impl<'a, L: EvalLookup> Evaluation<'a, L> {
    spec fn lookup_view(&self) -> L {
        *self.lookup
    }

    spec fn memo_view(&self) -> Memo {
        text_map(&self.memo)
    }

    spec fn step_count(&self) -> u64 {
        self.steps
    }

    spec fn limit(&self) -> Option<u64> {
        self.step_limit
    }

    spec fn outcome(&self, s: Seq<char>) -> (Result<u64, Failure>, Memo, u64) {
        nullary_spec(self.lookup_view(), self.limit(), self.memo_view(), self.step_count(), s)
    }

    fn evaluate_nullary(&mut self, nullary: &str) -> (r: Result<u64, EvalError>)
        requires
            old(self).outcome(nullary@).0 != Err::<u64, Failure>(Failure::Panic),
        ensures
            result_view(r) == old(self).outcome(nullary@).0,
            final(self).memo_view() == old(self).outcome(nullary@).1,
            final(self).step_count() == old(self).outcome(nullary@).2,
            final(self).lookup_view() == old(self).lookup_view(),
            final(self).limit() == old(self).limit(),
        decreases nullary@.len(),
    {
        if let Some(value) = memo_get(&self.memo, nullary) {
            return Ok(value);
        }
        if let Some(value) = self.lookup.lookup(nullary) {
            memo_insert(&mut self.memo, nullary.to_string(), value);
            return Ok(value);
        }
        let evaluation: u64;
        if is_single(nullary, '0') {
            evaluation = 0;
        } else if starts_with_char(nullary, '^') {
            let i = match inner(nullary) {
                Ok(i) => i,
                Err(e) => return Err(e),
            };
            let inner_value = match self.evaluate_nullary(i) {
                Ok(v) => v,
                Err(e) => return Err(e),
            };
            evaluation = match inner_value.checked_add(1) {
                Some(v) => v,
                None => return Err(overflow(nullary)),
            };
        } else if starts_with_char(nullary, 'R') {
            let i = match inner(nullary) {
                Ok(i) => i,
                Err(e) => return Err(e),
            };
            let arguments = split_into_top_level_arguments(i);
            proof {
                lemma_split_lengths(i@);
            }
            assert(views_of(arguments@).len() == arguments@.len());
            if arguments.len() != 3 {
                return Err(malformed_nullary(nullary));
            }
            assert(views_of(arguments@)[0] == arguments@[0]@);
            assert(views_of(arguments@)[1] == arguments@[1]@);
            assert(views_of(arguments@)[2] == arguments@[2]@);
            proof {
                lemma_unfreeze_len(arguments@[0]@);
            }
            let unfrozen = match unfreeze_unary(arguments[0]) {
                Ok(f) => f,
                Err(e) => return Err(e),
            };
            let unary = match self.compile_unary(unfrozen.as_str()) {
                Ok(u) => u,
                Err(e) => return Err(e),
            };
            let base = match self.evaluate_nullary(arguments[1]) {
                Ok(v) => v,
                Err(e) => return Err(e),
            };
            let countdown = match self.evaluate_nullary(arguments[2]) {
                Ok(v) => v,
                Err(e) => return Err(e),
            };
            evaluation = match self.iterate(&unary, base, countdown) {
                Ok(v) => v,
                Err(e) => return Err(e),
            };
        } else {
            return Err(malformed_nullary(nullary));
        }
        memo_insert(&mut self.memo, nullary.to_string(), evaluation);
        Ok(evaluation)
    }

    fn compile_unary(&mut self, unary: &str) -> (r: Result<Unary, EvalError>)
        requires
            compile_spec(
                old(self).lookup_view(),
                old(self).limit(),
                old(self).memo_view(),
                old(self).step_count(),
                unary@,
            ).0 != Err::<Unary, Failure>(Failure::Panic),
        ensures
            ({
                let out = compile_spec(
                    old(self).lookup_view(),
                    old(self).limit(),
                    old(self).memo_view(),
                    old(self).step_count(),
                    unary@,
                );
                &&& result_view(r) == out.0
                &&& final(self).memo_view() == out.1
                &&& final(self).step_count() == out.2
            }),
            final(self).lookup_view() == old(self).lookup_view(),
            final(self).limit() == old(self).limit(),
        decreases unary@.len(),
    {
        if is_single(unary, '*') {
            return Ok(Unary::Linear { mul: 1, add: 0 });
        }
        if starts_with_char(unary, '^') {
            let i = match inner(unary) {
                Ok(i) => i,
                Err(e) => return Err(e),
            };
            let compiled_inner = match self.compile_unary(i) {
                Ok(c) => c,
                Err(e) => return Err(e),
            };
            return Ok(
                match compiled_inner {
                    Unary::Linear { mul, add } => match add.checked_add(1) {
                        Some(add) => Unary::Linear { mul, add },
                        None => Unary::Succ(Box::new(Unary::Linear { mul, add })),
                    },
                    other => Unary::Succ(Box::new(other)),
                },
            );
        }
        if !starts_with_char(unary, 'R') {
            return Err(malformed_unary(unary));
        }
        let i = match inner(unary) {
            Ok(i) => i,
            Err(e) => return Err(e),
        };
        let arguments = split_into_top_level_arguments(i);
        proof {
            lemma_split_lengths(i@);
        }
        assert(views_of(arguments@).len() == arguments@.len());
        if arguments.len() != 3 {
            return Err(malformed_unary(unary));
        }
        assert(views_of(arguments@)[0] == arguments@[0]@);
        assert(views_of(arguments@)[1] == arguments@[1]@);
        assert(views_of(arguments@)[2] == arguments@[2]@);
        proof {
            lemma_unfreeze_len(arguments@[0]@);
        }
        let unfrozen = match unfreeze_unary(arguments[0]) {
            Ok(f) => f,
            Err(e) => return Err(e),
        };
        let op = match self.compile_unary(unfrozen.as_str()) {
            Ok(op) => op,
            Err(e) => return Err(e),
        };
        if is_single(arguments[1], '*') {
            let base = match self.evaluate_nullary(arguments[2]) {
                Ok(v) => v,
                Err(e) => return Err(e),
            };
            return Ok(Unary::IterConstBase { op: Box::new(op), base });
        }
        if !is_single(arguments[2], '*') {
            return Err(malformed_unary(unary));
        }
        let count = match self.evaluate_nullary(arguments[1]) {
            Ok(v) => v,
            Err(e) => return Err(e),
        };
        // Iterating an affine operator a fixed number of times is itself
        // affine: collapse it now so applications are O(1). Fall back to the
        // looping form if the collapsed coefficients overflow u64.
        if let Unary::Linear { mul, add } = op {
            if let Some((mul, add)) = compose_linear(mul, add, count) {
                return Ok(Unary::Linear { mul, add });
            }
        }
        Ok(Unary::IterFixedCount { op: Box::new(op), count })
    }

    fn apply(&mut self, unary: &Unary, n: u64) -> (r: Result<u64, EvalError>)
        ensures
            (result_view(r), final(self).step_count()) == apply_spec(
                old(self).limit(),
                old(self).step_count(),
                *unary,
                n,
            ),
            final(self).memo_view() == old(self).memo_view(),
            final(self).lookup_view() == old(self).lookup_view(),
            final(self).limit() == old(self).limit(),
        decreases *unary, 1nat, 0nat,
    {
        match self.count_step() {
            Ok(_) => {},
            Err(e) => return Err(e),
        }
        match unary {
            Unary::Linear { mul, add } => match mul.checked_mul(n) {
                Some(product) => match product.checked_add(*add) {
                    Some(v) => Ok(v),
                    None => Err(overflow("unary application")),
                },
                None => Err(overflow("unary application")),
            },
            Unary::Succ(op) => {
                let value = match self.apply(op, n) {
                    Ok(v) => v,
                    Err(e) => return Err(e),
                };
                match value.checked_add(1) {
                    Some(v) => Ok(v),
                    None => Err(overflow("successor")),
                }
            },
            Unary::IterConstBase { op, base } => self.iterate(op, *base, n),
            Unary::IterFixedCount { op, count } => self.iterate(op, n, *count),
        }
    }

    fn iterate(&mut self, op: &Unary, base: u64, countdown: u64) -> (r: Result<u64, EvalError>)
        ensures
            (result_view(r), final(self).step_count()) == iterate_spec(
                old(self).limit(),
                old(self).step_count(),
                *op,
                base,
                countdown,
            ),
            final(self).memo_view() == old(self).memo_view(),
            final(self).lookup_view() == old(self).lookup_view(),
            final(self).limit() == old(self).limit(),
        decreases *op, 2nat, countdown,
    {
        // Affine operators iterate in closed form when its coefficients fit,
        // else one step at a time (few steps before the values settle or
        // overflow).
        if let Unary::Linear { mul, add } = op {
            proof {
                lemma_closed_form(*mul, *add, base as nat, countdown);
            }
            match compose_linear(*mul, *add, countdown) {
                Some((mul_k, add_k)) => {
                    return match mul_k.checked_mul(base) {
                        Some(product) => match product.checked_add(add_k) {
                            Some(v) => Ok(v),
                            None => Err(overflow("iteration")),
                        },
                        None => Err(overflow("iteration")),
                    };
                },
                None => {
                    if *mul == 1 {
                        proof {
                            lemma_linear_of_one(*mul, *add, base as nat, countdown as nat);
                        }
                        return Err(overflow("iteration"));
                    }
                    return match linear_steps(*mul, *add, base, countdown) {
                        Some(v) => Ok(v),
                        None => Err(overflow("iteration")),
                    };
                },
            }
        }
        let mut current_value = base;
        let mut current_countdown = countdown;
        while current_countdown > 0
            invariant
                !(*op is Linear),
                iterate_spec(old(self).limit(), old(self).step_count(), *op, base, countdown)
                    == iterate_spec(
                    self.limit(),
                    self.step_count(),
                    *op,
                    current_value,
                    current_countdown,
                ),
                self.memo_view() == old(self).memo_view(),
                self.lookup_view() == old(self).lookup_view(),
                self.limit() == old(self).limit(),
            decreases current_countdown,
        {
            current_value = match self.apply(op, current_value) {
                Ok(v) => v,
                Err(e) => return Err(e),
            };
            current_countdown = current_countdown - 1;
        }
        Ok(current_value)
    }

    fn count_step(&mut self) -> (r: Result<(), EvalError>)
        ensures
            (result_view(r), final(self).step_count()) == step_spec(
                old(self).limit(),
                old(self).step_count(),
            ),
            final(self).memo_view() == old(self).memo_view(),
            final(self).lookup_view() == old(self).lookup_view(),
            final(self).limit() == old(self).limit(),
    {
        self.steps = self.steps.saturating_add(1);
        if let Some(limit) = self.step_limit {
            if self.steps > limit {
                return Err(EvalError::StepLimit(limit));
            }
        }
        Ok(())
    }
}

} // verus!
