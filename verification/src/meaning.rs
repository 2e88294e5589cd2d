//! What forms denote: unbounded natural numbers, with no limit on size or
//! work; and the proof that every value the evaluator returns is the one the
//! form denotes.
use vstd::prelude::*;
use vstd::arithmetic::power::pow;
use vstd::string::*;

use crate::evaluator::{
    apply_spec, collapse, compile_spec, compose_spec, iterate_spec, linear_iterate, nullary_spec, succ_wrap,
    EvalLookup, Memo, Unary,
};
use crate::grammar::wrap;
use crate::form::{
    all_ascii, inner_spec, lemma_inner_ascii, lemma_split_ascii, lemma_split_lengths,
    lemma_unfreeze_ascii, lemma_unfreeze_errors, lemma_unfreeze_len, split_spec, unfreeze_spec, Failure,
};

verus! {

/// The number a nullary form denotes: "0" is zero, "^(x)" is one more than
/// x, and "R(f,a,b)" is the unary f applied b times starting from a. `None`
/// when the text is not a form.
pub open spec fn value_of(s: Seq<char>) -> Option<nat>
    decreases s.len(), 0nat, 0nat,
{
    if s == seq!['0'] {
        Some(0)
    } else if s.len() > 0 && s[0] == '^' {
        match inner_spec(s) {
            Ok(i) => match value_of(i) {
                Some(v) => Some(v + 1),
                None => None,
            },
            Err(_) => None,
        }
    } else if s.len() > 0 && s[0] == 'R' {
        match inner_spec(s) {
            Ok(i) => {
                let a = split_spec(i);
                proof {
                    lemma_split_lengths(i);
                    lemma_unfreeze_len(a[0]);
                }
                if a.len() != 3 {
                    None
                } else {
                    match (unfreeze_spec(a[0]), value_of(a[1]), value_of(a[2])) {
                        (Ok(f), Some(base), Some(count)) => iterate_meaning(f, base, count),
                        _ => None,
                    }
                }
            },
            Err(_) => None,
        }
    } else {
        None
    }
}

/// What a unary form (hole written `*`) gives for `n`. `None` when the text
/// is not a unary form, whatever `n` is.
pub open spec fn unary_meaning(u: Seq<char>, n: nat) -> Option<nat>
    decreases u.len(), 1nat, 0nat,
{
    if u == seq!['*'] {
        Some(n)
    } else if u.len() > 0 && u[0] == '^' {
        match inner_spec(u) {
            Ok(i) => match unary_meaning(i, n) {
                Some(v) => Some(v + 1),
                None => None,
            },
            Err(_) => None,
        }
    } else if u.len() > 0 && u[0] == 'R' {
        match inner_spec(u) {
            Ok(i) => {
                let a = split_spec(i);
                proof {
                    lemma_split_lengths(i);
                    lemma_unfreeze_len(a[0]);
                }
                if a.len() != 3 {
                    None
                } else {
                    match unfreeze_spec(a[0]) {
                        Ok(f) => if a[1] == seq!['*'] {
                            match value_of(a[2]) {
                                Some(base) => iterate_meaning(f, base, n),
                                None => None,
                            }
                        } else if a[2] == seq!['*'] {
                            match value_of(a[1]) {
                                Some(count) => iterate_meaning(f, n, count),
                                None => None,
                            }
                        } else {
                            None
                        },
                        Err(_) => None,
                    }
                }
            },
            Err(_) => None,
        }
    } else {
        None
    }
}

/// The unary form `f` applied `k` times starting from `base` (`None` when
/// `f` is not a unary form).
pub open spec fn iterate_meaning(f: Seq<char>, base: nat, k: nat) -> Option<nat>
    decreases f.len(), 2nat, k,
{
    if unary_meaning(f, 0) is None {
        None
    } else if k == 0 {
        Some(base)
    } else {
        match unary_meaning(f, base) {
            Some(v) => iterate_meaning(f, v, (k - 1) as nat),
            None => None,
        }
    }
}

/// What a compiled unary computes, without bounds.
pub open spec fn unary_math(u: Unary, n: nat) -> nat
    decreases u, 1nat, 0nat,
{
    match u {
        Unary::Linear { mul, add } => (mul as nat) * n + (add as nat),
        Unary::Succ(op) => unary_math(*op, n) + 1,
        Unary::IterConstBase { op, base } => iterate_math(*op, base as nat, n),
        Unary::IterFixedCount { op, count } => iterate_math(*op, n, count as nat),
    }
}

/// A compiled unary applied `k` times starting from `base`, without bounds.
pub open spec fn iterate_math(op: Unary, base: nat, k: nat) -> nat
    decreases op, 2nat, k,
{
    if k == 0 {
        base
    } else {
        iterate_math(op, unary_math(op, base), (k - 1) as nat)
    }
}

/// mul^0 + mul^1 + ... + mul^(k-1)
pub open spec fn geometric(mul: int, k: nat) -> int
    decreases k,
{
    if k == 0 {
        0
    } else {
        geometric(mul, (k - 1) as nat) + pow(mul, (k - 1) as nat)
    }
}


proof fn lemma_iterate_linear(mul: u64, add: u64, base: nat, k: nat)
    ensures
        iterate_math(Unary::Linear { mul, add }, base, k) == pow(
            mul as int,
            k,
        ) * base + add * geometric(mul as int, k),
    decreases k,
{
    reveal(pow);
    let lin = Unary::Linear { mul, add };
    if k > 0 {
        let next = (mul as nat) * base + (add as nat);
        lemma_iterate_linear(mul, add, next, (k - 1) as nat);
        assert(unary_math(lin, base) == next);
        assert(iterate_math(lin, base, k) == iterate_math(lin, next, (k - 1) as nat));
        let p = pow(mul as int, (k - 1) as nat);
        let g = geometric(mul as int, (k - 1) as nat);
        assert(pow(mul as int, k) == mul * p);
        assert(p * next + add * g == (mul * p) * base + add * (g + p)) by (nonlinear_arith)
            requires
                next == (mul as nat) * base + (add as nat),
        ;
    }
}

/// Iterating an affine compiled unary is iterating its map.
proof fn lemma_iterate_math_linear(mul: u64, add: u64, base: nat, k: nat)
    ensures
        iterate_math(Unary::Linear { mul, add }, base, k) == linear_iterate(mul, add, base, k),
    decreases k,
{
    let lin = Unary::Linear { mul, add };
    if k > 0 {
        let next = (mul as nat) * base + (add as nat);
        lemma_iterate_math_linear(mul, add, next, (k - 1) as nat);
        assert(unary_math(lin, base) == next);
        assert(iterate_math(lin, base, k) == iterate_math(lin, next, (k - 1) as nat));
        assert(linear_iterate(mul, add, base, k) == linear_iterate(mul, add, next, (k - 1) as nat));
    }
}

/// The closed form agrees with iterating n -> mul*n + add whenever its
/// coefficients fit.
pub(crate) proof fn lemma_closed_form(mul: u64, add: u64, base: nat, k: u64)
    ensures
        compose_spec(mul, add, k) matches Some((mul_k, add_k)) ==> mul_k * base + add_k == linear_iterate(
            mul,
            add,
            base,
            k as nat,
        ),
{
    lemma_compose(mul, add, k);
    lemma_iterate_linear(mul, add, base, k as nat);
    lemma_iterate_math_linear(mul, add, base, k as nat);
    if let Some((mul_k, add_k)) = compose_spec(mul, add, k) {
        assert(mul_k * base == pow(mul as int, k as nat) * base);
    }
}

proof fn lemma_pow_of_one(k: nat)
    ensures
        pow(1, k) == 1,
    decreases k,
{
    reveal(pow);
    if k > 0 {
        lemma_pow_of_one((k - 1) as nat);
    }
}

proof fn lemma_geometric_of_one(k: nat)
    ensures
        geometric(1, k) == k,
    decreases k,
{
    if k > 0 {
        lemma_geometric_of_one((k - 1) as nat);
        lemma_pow_of_one((k - 1) as nat);
    }
}

proof fn lemma_geometric_of_zero(k: nat)
    requires
        k >= 1,
    ensures
        geometric(0, k) == 1,
        pow(0, k) == 0,
    decreases k,
{
    reveal(pow);
    if k > 1 {
        lemma_geometric_of_zero((k - 1) as nat);
        assert(geometric(0, k) == geometric(0, (k - 1) as nat) + pow(0, (k - 1) as nat));
    } else {
        assert(geometric(0, 0) == 0);
        assert(pow(0, 0) == 1);
        assert(geometric(0, 1) == geometric(0, 0) + pow(0, 0));
    }
}

proof fn lemma_geometric_closed(mul: int, k: nat)
    ensures
        (mul - 1) * geometric(mul, k) == pow(mul, k) - 1,
    decreases k,
{
    reveal(pow);
    if k > 0 {
        lemma_geometric_closed(mul, (k - 1) as nat);
        let p = pow(mul, (k - 1) as nat);
        let g = geometric(mul, (k - 1) as nat);
        assert((mul - 1) * (g + p) == mul * p - 1) by (nonlinear_arith)
            requires
                (mul - 1) * g == p - 1,
        ;
    }
}

/// The coefficients of `compose_spec` are those of the k-fold composition.
proof fn lemma_compose(mul: u64, add: u64, k: u64)
    ensures
        compose_spec(mul, add, k) matches Some((mul_k, add_k)) ==> mul_k
            == pow(mul as int, k as nat) && add_k == add * geometric(
            mul as int,
            k as nat,
        ),
{
    if k == 0 {
        vstd::arithmetic::power::lemma_pow0(mul as int);
    } else if mul == 1 {
        lemma_pow_of_one(k as nat);
        lemma_geometric_of_one(k as nat);
    } else if mul == 0 {
        lemma_geometric_of_zero(k as nat);
    } else if let Some((mul_k, add_k)) = compose_spec(mul, add, k) {
        lemma_geometric_closed(mul as int, k as nat);
        let g = geometric(mul as int, k as nat);
        vstd::arithmetic::power::lemma_pow_positive(mul as int, k as nat);
        assert(g >= 0) by (nonlinear_arith)
            requires
                (mul - 1) * g == pow(mul as int, k as nat) - 1,
                pow(mul as int, k as nat) >= 1,
                mul >= 2,
        ;
        vstd::arithmetic::div_mod::lemma_div_by_multiple(g, mul - 1);
        assert(g * (mul - 1) == (mul - 1) * g) by (nonlinear_arith);
        let pk = pow(mul as int, k as nat);
        assert(pk <= u64::MAX);
        assert(mul_k == pk);
        assert((pk - 1) / (mul - 1) == g);
        assert(add_k == add * g);
    }
}


proof fn lemma_apply_math(limit: Option<u64>, steps: u64, u: Unary, n: u64)
    ensures
        apply_spec(limit, steps, u, n).0 matches Ok(v) ==> v == unary_math(u, n as nat),
    decreases u, 1nat, 0nat,
{
    let (counted, steps1) = crate::evaluator::step_spec(limit, steps);
    if counted is Ok {
        match u {
            Unary::Linear { mul, add } => {},
            Unary::Succ(op) => {
                lemma_apply_math(limit, steps1, *op, n);
            },
            Unary::IterConstBase { op, base } => {
                lemma_iterate_math(limit, steps1, *op, base, n);
            },
            Unary::IterFixedCount { op, count } => {
                lemma_iterate_math(limit, steps1, *op, n, count);
            },
        }
    }
}

proof fn lemma_iterate_math(limit: Option<u64>, steps: u64, op: Unary, base: u64, countdown: u64)
    ensures
        iterate_spec(limit, steps, op, base, countdown).0 matches Ok(v) ==> v == iterate_math(
            op,
            base as nat,
            countdown as nat,
        ),
    decreases op, 2nat, countdown,
{
    match op {
        Unary::Linear { mul, add } => {
            lemma_iterate_math_linear(mul, add, base as nat, countdown as nat);
        },
        _ => {
            if countdown > 0 {
                let (r, steps1) = apply_spec(limit, steps, op, base);
                lemma_apply_math(limit, steps, op, base);
                if let Ok(v) = r {
                    lemma_iterate_math(limit, steps1, op, v, (countdown - 1) as u64);
                }
            }
        },
    }
}

/// Every value computed on the way to applying `u` to `n` fits in a `u64`:
/// the affine map's result, the value under each successor and the successor
/// itself, and each value of an iteration (only the last one, for an affine
/// operator, which is iterated in closed form).
pub open spec fn unary_fits(u: Unary, n: nat) -> bool
    decreases u, 1nat, 0nat,
{
    match u {
        Unary::Linear { mul, add } => (mul as nat) * n + (add as nat) <= u64::MAX,
        Unary::Succ(op) => unary_fits(*op, n) && unary_math(*op, n) + 1 <= u64::MAX,
        Unary::IterConstBase { op, base } => iteration_fits(*op, base as nat, n),
        Unary::IterFixedCount { op, count } => iteration_fits(*op, n, count as nat),
    }
}

/// Every value of `op` applied `k` times from `base` fits in a `u64`.
pub open spec fn iteration_fits(op: Unary, base: nat, k: nat) -> bool
    decreases op, 2nat, k,
{
    match op {
        Unary::Linear { .. } => base <= u64::MAX && iterate_math(op, base, k) <= u64::MAX,
        _ => base <= u64::MAX && (k == 0 || (unary_fits(op, base) && iteration_fits(
            op,
            unary_math(op, base),
            (k - 1) as nat,
        ))),
    }
}

proof fn lemma_fits_bound(u: Unary, n: nat)
    ensures
        unary_fits(u, n) ==> unary_math(u, n) <= u64::MAX,
    decreases u, 1nat, 0nat,
{
    match u {
        Unary::Linear { mul, add } => {},
        Unary::Succ(op) => {},
        Unary::IterConstBase { op, base } => {
            lemma_iteration_fits_bound(*op, base as nat, n);
        },
        Unary::IterFixedCount { op, count } => {
            lemma_iteration_fits_bound(*op, n, count as nat);
        },
    }
}

proof fn lemma_iteration_fits_bound(op: Unary, base: nat, k: nat)
    ensures
        iteration_fits(op, base, k) ==> iterate_math(op, base, k) <= u64::MAX,
    decreases op, 2nat, k,
{
    match op {
        Unary::Linear { .. } => {},
        _ => {
            if k > 0 {
                lemma_iteration_fits_bound(op, unary_math(op, base), (k - 1) as nat);
            }
        },
    }
}

proof fn lemma_apply_complete(steps: u64, u: Unary, n: u64)
    ensures
        apply_spec(None, steps, u, n).0 is Ok <==> unary_fits(u, n as nat),
        apply_spec(None, steps, u, n).0 matches Ok(v) ==> v == unary_math(u, n as nat),
    decreases u, 1nat, 0nat,
{
    lemma_apply_math(None, steps, u, n);
    let steps1 = crate::evaluator::step_spec(None, steps).1;
    match u {
        Unary::Linear { mul, add } => {},
        Unary::Succ(op) => {
            lemma_apply_complete(steps1, *op, n);
        },
        Unary::IterConstBase { op, base } => {
            lemma_iterate_complete(steps1, *op, base, n);
        },
        Unary::IterFixedCount { op, count } => {
            lemma_iterate_complete(steps1, *op, n, count);
        },
    }
}

proof fn lemma_iterate_complete(steps: u64, op: Unary, base: u64, countdown: u64)
    ensures
        iterate_spec(None, steps, op, base, countdown).0 is Ok <==> iteration_fits(
            op,
            base as nat,
            countdown as nat,
        ),
    decreases op, 2nat, countdown,
{
    match op {
        Unary::Linear { mul, add } => {
            lemma_iterate_math_linear(mul, add, base as nat, countdown as nat);
        },
        _ => {
            if countdown > 0 {
                lemma_apply_complete(steps, op, base);
                let (r, steps1) = apply_spec(None, steps, op, base);
                if let Ok(v) = r {
                    lemma_iterate_complete(steps1, op, v, (countdown - 1) as u64);
                } else {
                    if iteration_fits(op, base as nat, countdown as nat) {
                        assert(unary_fits(op, base as nat));
                    }
                }
            }
        },
    }
}

/// Applying a compiled unary with no step limit succeeds exactly when every
/// value computed on the way fits in a `u64`, and then gives the value the
/// unary denotes. In particular `^(f)` applied to `n` gives one more than `f`
/// applied to `n` whenever that fits, and a value that fits is never lost to
/// an overflow.
pub proof fn law_application_is_complete(steps: u64, u: Unary, n: u64)
    ensures
        apply_spec(None, steps, u, n).0 is Ok <==> unary_fits(u, n as nat),
        unary_fits(u, n as nat) ==> apply_spec(None, steps, u, n).0 == Ok::<u64, Failure>(
            unary_math(u, n as nat) as u64,
        ),
        unary_fits(u, n as nat) ==> unary_math(u, n as nat) <= u64::MAX,
{
    lemma_apply_complete(steps, u, n);
    lemma_fits_bound(u, n as nat);
}

/// Iterating a compiled unary with no step limit succeeds exactly when every
/// value of the iteration fits in a `u64`, and then gives the value the
/// iteration denotes.
pub proof fn law_iteration_is_complete(steps: u64, op: Unary, base: u64, count: u64)
    ensures
        iterate_spec(None, steps, op, base, count).0 is Ok <==> iteration_fits(op, base as nat, count as nat),
        iteration_fits(op, base as nat, count as nat) ==> iterate_spec(None, steps, op, base, count).0
            == Ok::<u64, Failure>(iterate_math(op, base as nat, count as nat) as u64),
{
    lemma_iterate_complete(steps, op, base, count);
    lemma_iterate_math(None, steps, op, base, count);
    lemma_iteration_fits_bound(op, base as nat, count as nat);
}

proof fn lemma_iterate_meaning(f: Seq<char>, u: Unary, base: nat, k: nat)
    requires
        forall|n: nat| #[trigger] unary_meaning(f, n) == Some(unary_math(u, n)),
    ensures
        iterate_meaning(f, base, k) == Some(iterate_math(u, base, k)),
    decreases k,
{
    assert(unary_meaning(f, 0) == Some(unary_math(u, 0)));
    if k > 0 {
        assert(unary_meaning(f, base) == Some(unary_math(u, base)));
        lemma_iterate_meaning(f, u, unary_math(u, base), (k - 1) as nat);
    }
}

proof fn lemma_succ_wrap(c: Unary, n: nat)
    ensures
        unary_math(succ_wrap(c), n) == unary_math(c, n) + 1,
{
}

proof fn lemma_collapse(op: Unary, count: u64, n: nat)
    ensures
        unary_math(collapse(op, count), n) == iterate_math(op, n, count as nat),
{
    if let Unary::Linear { mul, add } = op {
        lemma_compose(mul, add, count);
        lemma_iterate_linear(mul, add, n, count as nat);
        if let Some((m, a)) = compose_spec(mul, add, count) {
            assert(unary_math(Unary::Linear { mul: m, add: a }, n) == (m as nat) * n + (a as nat));
            assert((m as nat) * n == pow(mul as int, count as nat) * n);
        }
    }
}

/// Every value the memo and the lookup hold is the value its form denotes.
pub open spec fn truthful<L: EvalLookup>(lookup: L, memo: Memo) -> bool {
    &&& forall|s: Seq<char>| #[trigger]
        memo.contains_key(s) ==> value_of(s) == Some(memo[s] as nat)
    &&& forall|s: Seq<char>| #[trigger]
        lookup.spec_lookup(s) is Some ==> value_of(s) == Some(lookup.spec_lookup(s)->0 as nat)
}

proof fn lemma_truthful_insert<L: EvalLookup>(lookup: L, memo: Memo, s: Seq<char>, v: u64)
    requires
        truthful(lookup, memo),
        value_of(s) == Some(v as nat),
    ensures
        truthful(lookup, memo.insert(s, v)),
{
    let m2 = memo.insert(s, v);
    assert forall|t: Seq<char>| #[trigger] m2.contains_key(t) implies value_of(t) == Some(
        m2[t] as nat,
    ) by {
        if t != s {
            assert(memo.contains_key(t));
        }
    }
}

proof fn lemma_nullary_truthful<L: EvalLookup>(
    lookup: L,
    limit: Option<u64>,
    memo: Memo,
    steps: u64,
    s: Seq<char>,
)
    requires
        truthful(lookup, memo),
    ensures
        truthful(lookup, nullary_spec(lookup, limit, memo, steps, s).1),
        nullary_spec(lookup, limit, memo, steps, s).0 matches Ok(v) ==> value_of(s) == Some(
            v as nat,
        ),
    decreases s.len(),
{
    if memo.contains_key(s) {
    } else if lookup.spec_lookup(s) is Some {
        lemma_truthful_insert(lookup, memo, s, lookup.spec_lookup(s)->0);
    } else if s == seq!['0'] {
        lemma_truthful_insert(lookup, memo, s, 0);
    } else if s.len() > 0 && s[0] == '^' {
        if let Ok(i) = inner_spec(s) {
            lemma_nullary_truthful(lookup, limit, memo, steps, i);
            let (r, memo1, steps1) = nullary_spec(lookup, limit, memo, steps, i);
            if let Ok(v) = r {
                if v + 1 <= u64::MAX {
                    lemma_truthful_insert(lookup, memo1, s, (v + 1) as u64);
                }
            }
        }
    } else if s.len() > 0 && s[0] == 'R' {
        if let Ok(i) = inner_spec(s) {
            let a = split_spec(i);
            lemma_split_lengths(i);
            lemma_unfreeze_len(a[0]);
            if a.len() == 3 {
                if let Ok(f) = unfreeze_spec(a[0]) {
                    lemma_compile_truthful(lookup, limit, memo, steps, f);
                    let (cu, memo1, steps1) = compile_spec(lookup, limit, memo, steps, f);
                    if let Ok(unary) = cu {
                        lemma_nullary_truthful(lookup, limit, memo1, steps1, a[1]);
                        let (rb, memo2, steps2) = nullary_spec(lookup, limit, memo1, steps1, a[1]);
                        if let Ok(base) = rb {
                            lemma_nullary_truthful(lookup, limit, memo2, steps2, a[2]);
                            let (rc, memo3, steps3) = nullary_spec(
                                lookup,
                                limit,
                                memo2,
                                steps2,
                                a[2],
                            );
                            if let Ok(count) = rc {
                                lemma_iterate_math(limit, steps3, unary, base, count);
                                lemma_iterate_meaning(f, unary, base as nat, count as nat);
                                let (ri, steps4) = iterate_spec(limit, steps3, unary, base, count);
                                if let Ok(v) = ri {
                                    assert(value_of(s) == iterate_meaning(
                                        f,
                                        base as nat,
                                        count as nat,
                                    ));
                                    lemma_truthful_insert(lookup, memo3, s, v);
                                }
                            }
                        }
                    }
                }
            }
        }
    }
}

proof fn lemma_compile_truthful<L: EvalLookup>(
    lookup: L,
    limit: Option<u64>,
    memo: Memo,
    steps: u64,
    u: Seq<char>,
)
    requires
        truthful(lookup, memo),
    ensures
        truthful(lookup, compile_spec(lookup, limit, memo, steps, u).1),
        compile_spec(lookup, limit, memo, steps, u).0 matches Ok(c) ==> forall|n: nat| #[trigger]
            unary_meaning(u, n) == Some(unary_math(c, n)),
    decreases u.len(),
{
    if u == seq!['*'] {
        let c = Unary::Linear { mul: 1, add: 0 };
        assert forall|n: nat| #[trigger] unary_meaning(u, n) == Some(unary_math(c, n)) by {
            assert(unary_math(c, n) == 1 * n + 0);
        }
    } else if u.len() > 0 && u[0] == '^' {
        if let Ok(i) = inner_spec(u) {
            lemma_compile_truthful(lookup, limit, memo, steps, i);
            let (r, memo1, steps1) = compile_spec(lookup, limit, memo, steps, i);
            if let Ok(c) = r {
                assert forall|n: nat| #[trigger]
                    unary_meaning(u, n) == Some(unary_math(succ_wrap(c), n)) by {
                    lemma_succ_wrap(c, n);
                    assert(unary_meaning(i, n) == Some(unary_math(c, n)));
                }
            }
        }
    } else if u.len() > 0 && u[0] == 'R' {
        if let Ok(i) = inner_spec(u) {
            let a = split_spec(i);
            lemma_split_lengths(i);
            lemma_unfreeze_len(a[0]);
            if a.len() == 3 {
                if let Ok(f) = unfreeze_spec(a[0]) {
                    lemma_compile_truthful(lookup, limit, memo, steps, f);
                    let (rop, memo1, steps1) = compile_spec(lookup, limit, memo, steps, f);
                    if let Ok(op) = rop {
                        if a[1] == seq!['*'] {
                            lemma_nullary_truthful(lookup, limit, memo1, steps1, a[2]);
                            let (rb, memo2, steps2) = nullary_spec(
                                lookup,
                                limit,
                                memo1,
                                steps1,
                                a[2],
                            );
                            if let Ok(base) = rb {
                                let c = Unary::IterConstBase { op: Box::new(op), base };
                                assert forall|n: nat| #[trigger]
                                    unary_meaning(u, n) == Some(unary_math(c, n)) by {
                                    lemma_iterate_meaning(f, op, base as nat, n);
                                }
                            }
                        } else if a[2] == seq!['*'] {
                            lemma_nullary_truthful(lookup, limit, memo1, steps1, a[1]);
                            let (rc, memo2, steps2) = nullary_spec(
                                lookup,
                                limit,
                                memo1,
                                steps1,
                                a[1],
                            );
                            if let Ok(count) = rc {
                                let c = collapse(op, count);
                                assert forall|n: nat| #[trigger]
                                    unary_meaning(u, n) == Some(unary_math(c, n)) by {
                                    lemma_iterate_meaning(f, op, n, count as nat);
                                    lemma_collapse(op, count, n);
                                }
                            }
                        }
                    }
                }
            }
        }
    }
}


/// What a failure of `apply_spec` or `iterate_spec` can be: an overflow, or
/// the limit that was set.
pub open spec fn arithmetic_failure(r: Result<u64, Failure>, limit: Option<u64>) -> bool {
    match r {
        Ok(_) => true,
        Err(Failure::Overflow(_)) => true,
        Err(Failure::StepLimit(l)) => limit == Some(l),
        Err(_) => false,
    }
}

proof fn lemma_apply_failures(limit: Option<u64>, steps: u64, u: Unary, n: u64)
    ensures
        arithmetic_failure(apply_spec(limit, steps, u, n).0, limit),
    decreases u, 1nat, 0nat,
{
    let (counted, steps1) = crate::evaluator::step_spec(limit, steps);
    if counted is Ok {
        match u {
            Unary::Linear { mul, add } => {},
            Unary::Succ(op) => {
                lemma_apply_failures(limit, steps1, *op, n);
            },
            Unary::IterConstBase { op, base } => {
                lemma_iterate_failures(limit, steps1, *op, base, n);
            },
            Unary::IterFixedCount { op, count } => {
                lemma_iterate_failures(limit, steps1, *op, n, count);
            },
        }
    }
}

proof fn lemma_iterate_failures(
    limit: Option<u64>,
    steps: u64,
    op: Unary,
    base: u64,
    countdown: u64,
)
    ensures
        arithmetic_failure(iterate_spec(limit, steps, op, base, countdown).0, limit),
    decreases op, 2nat, countdown,
{
    match op {
        Unary::Linear { mul, add } => {},
        _ => {
            if countdown > 0 {
                let (r, steps1) = apply_spec(limit, steps, op, base);
                lemma_apply_failures(limit, steps, op, base);
                if let Ok(v) = r {
                    lemma_iterate_failures(limit, steps1, op, v, (countdown - 1) as u64);
                }
            }
        },
    }
}

/// The failures an evaluation of `s` can end in: a step limit only when one
/// was set (and then that one), and no split character when `s` is ASCII.
pub open spec fn failure_is_sound(r: Result<u64, Failure>, limit: Option<u64>, s: Seq<char>) -> bool {
    &&& r matches Err(Failure::StepLimit(l)) ==> limit == Some(l)
    &&& all_ascii(s) ==> r != Err::<u64, Failure>(Failure::Panic)
}

pub open spec fn compile_failure_is_sound(
    r: Result<Unary, Failure>,
    limit: Option<u64>,
    u: Seq<char>,
) -> bool {
    &&& r matches Err(Failure::StepLimit(l)) ==> limit == Some(l)
    &&& all_ascii(u) ==> r != Err::<Unary, Failure>(Failure::Panic)
}

proof fn lemma_nullary_failures<L: EvalLookup>(
    lookup: L,
    limit: Option<u64>,
    memo: Memo,
    steps: u64,
    s: Seq<char>,
)
    ensures
        failure_is_sound(nullary_spec(lookup, limit, memo, steps, s).0, limit, s),
    decreases s.len(),
{
    if all_ascii(s) {
        lemma_inner_ascii(s);
    }
    if memo.contains_key(s) {
    } else if lookup.spec_lookup(s) is Some {
    } else if s == seq!['0'] {
    } else if s.len() > 0 && s[0] == '^' {
        if let Ok(i) = inner_spec(s) {
            lemma_nullary_failures(lookup, limit, memo, steps, i);
        }
    } else if s.len() > 0 && s[0] == 'R' {
        if let Ok(i) = inner_spec(s) {
            let a = split_spec(i);
            lemma_split_lengths(i);
            lemma_unfreeze_len(a[0]);
            if all_ascii(s) {
                lemma_split_ascii(i);
            }
            if a.len() == 3 {
                if all_ascii(s) {
                    assert(all_ascii(a[0]) && all_ascii(a[1]) && all_ascii(a[2]));
                    lemma_unfreeze_ascii(a[0]);
                }
                lemma_unfreeze_errors(a[0]);
                if let Ok(f) = unfreeze_spec(a[0]) {
                    lemma_compile_failures(lookup, limit, memo, steps, f);
                    let (cu, memo1, steps1) = compile_spec(lookup, limit, memo, steps, f);
                    if let Ok(unary) = cu {
                        lemma_nullary_failures(lookup, limit, memo1, steps1, a[1]);
                        let (rb, memo2, steps2) = nullary_spec(lookup, limit, memo1, steps1, a[1]);
                        if let Ok(base) = rb {
                            lemma_nullary_failures(lookup, limit, memo2, steps2, a[2]);
                            let (rc, memo3, steps3) = nullary_spec(
                                lookup,
                                limit,
                                memo2,
                                steps2,
                                a[2],
                            );
                            if let Ok(count) = rc {
                                lemma_iterate_failures(limit, steps3, unary, base, count);
                            }
                        }
                    }
                }
            }
        }
    }
}

proof fn lemma_compile_failures<L: EvalLookup>(
    lookup: L,
    limit: Option<u64>,
    memo: Memo,
    steps: u64,
    u: Seq<char>,
)
    ensures
        compile_failure_is_sound(compile_spec(lookup, limit, memo, steps, u).0, limit, u),
    decreases u.len(),
{
    if all_ascii(u) {
        lemma_inner_ascii(u);
    }
    if u == seq!['*'] {
    } else if u.len() > 0 && u[0] == '^' {
        if let Ok(i) = inner_spec(u) {
            lemma_compile_failures(lookup, limit, memo, steps, i);
        }
    } else if u.len() > 0 && u[0] == 'R' {
        if let Ok(i) = inner_spec(u) {
            let a = split_spec(i);
            lemma_split_lengths(i);
            lemma_unfreeze_len(a[0]);
            if all_ascii(u) {
                lemma_split_ascii(i);
            }
            if a.len() == 3 {
                if all_ascii(u) {
                    assert(all_ascii(a[0]) && all_ascii(a[1]) && all_ascii(a[2]));
                    lemma_unfreeze_ascii(a[0]);
                }
                lemma_unfreeze_errors(a[0]);
                if let Ok(f) = unfreeze_spec(a[0]) {
                    lemma_compile_failures(lookup, limit, memo, steps, f);
                    let (rop, memo1, steps1) = compile_spec(lookup, limit, memo, steps, f);
                    if let Ok(op) = rop {
                        if a[1] == seq!['*'] {
                            lemma_nullary_failures(lookup, limit, memo1, steps1, a[2]);
                        } else if a[2] == seq!['*'] {
                            lemma_nullary_failures(lookup, limit, memo1, steps1, a[1]);
                        }
                    }
                }
            }
        }
    }
}


/// Two lookups that answer alike lead to the same evaluation.
pub proof fn lemma_lookups_agree<L1: EvalLookup, L2: EvalLookup>(
    l1: L1,
    l2: L2,
    limit: Option<u64>,
    memo: Memo,
    steps: u64,
    s: Seq<char>,
)
    requires
        forall|k: Seq<char>| #[trigger] l1.spec_lookup(k) == l2.spec_lookup(k),
    ensures
        nullary_spec(l1, limit, memo, steps, s) == nullary_spec(l2, limit, memo, steps, s),
    decreases s.len(),
{
    assert(l1.spec_lookup(s) == l2.spec_lookup(s));
    if memo.contains_key(s) {
    } else if l1.spec_lookup(s) is Some {
    } else if s == seq!['0'] {
    } else if s.len() > 0 && s[0] == '^' {
        if let Ok(i) = inner_spec(s) {
            lemma_lookups_agree(l1, l2, limit, memo, steps, i);
        }
    } else if s.len() > 0 && s[0] == 'R' {
        if let Ok(i) = inner_spec(s) {
            let a = split_spec(i);
            lemma_split_lengths(i);
            lemma_unfreeze_len(a[0]);
            if a.len() == 3 {
                if let Ok(f) = unfreeze_spec(a[0]) {
                    lemma_compile_lookups_agree(l1, l2, limit, memo, steps, f);
                    let (cu, memo1, steps1) = compile_spec(l1, limit, memo, steps, f);
                    if let Ok(unary) = cu {
                        lemma_lookups_agree(l1, l2, limit, memo1, steps1, a[1]);
                        let (rb, memo2, steps2) = nullary_spec(l1, limit, memo1, steps1, a[1]);
                        if let Ok(base) = rb {
                            lemma_lookups_agree(l1, l2, limit, memo2, steps2, a[2]);
                        }
                    }
                }
            }
        }
    }
}

/// Two lookups that answer alike lead to the same compiled unary.
pub proof fn lemma_compile_lookups_agree<L1: EvalLookup, L2: EvalLookup>(
    l1: L1,
    l2: L2,
    limit: Option<u64>,
    memo: Memo,
    steps: u64,
    u: Seq<char>,
)
    requires
        forall|k: Seq<char>| #[trigger] l1.spec_lookup(k) == l2.spec_lookup(k),
    ensures
        compile_spec(l1, limit, memo, steps, u) == compile_spec(l2, limit, memo, steps, u),
    decreases u.len(),
{
    if u == seq!['*'] {
    } else if u.len() > 0 && u[0] == '^' {
        if let Ok(i) = inner_spec(u) {
            lemma_compile_lookups_agree(l1, l2, limit, memo, steps, i);
        }
    } else if u.len() > 0 && u[0] == 'R' {
        if let Ok(i) = inner_spec(u) {
            let a = split_spec(i);
            lemma_split_lengths(i);
            lemma_unfreeze_len(a[0]);
            if a.len() == 3 {
                if let Ok(f) = unfreeze_spec(a[0]) {
                    lemma_compile_lookups_agree(l1, l2, limit, memo, steps, f);
                    let (rop, memo1, steps1) = compile_spec(l1, limit, memo, steps, f);
                    if let Ok(op) = rop {
                        if a[1] == seq!['*'] {
                            lemma_lookups_agree(l1, l2, limit, memo1, steps1, a[2]);
                        } else if a[2] == seq!['*'] {
                            lemma_lookups_agree(l1, l2, limit, memo1, steps1, a[1]);
                        }
                    }
                }
            }
        }
    }
}

/// Soundness of evaluation: when everything the memo and the lookup already
/// hold is the value its form denotes, every value an evaluation returns is
/// the value its form denotes (so a form that evaluates is a form), and the
/// memo it leaves behind holds only denoted values too.
pub proof fn law_evaluation_is_sound<L: EvalLookup>(
    lookup: L,
    limit: Option<u64>,
    memo: Memo,
    steps: u64,
    s: Seq<char>,
)
    requires
        truthful(lookup, memo),
    ensures
        nullary_spec(lookup, limit, memo, steps, s).0 matches Ok(v) ==> value_of(s) == Some(
            v as nat,
        ),
        truthful(lookup, nullary_spec(lookup, limit, memo, steps, s).1),
{
    lemma_nullary_truthful(lookup, limit, memo, steps, s);
}

/// Failures of evaluation: a step-limit failure happens only under a limit
/// and names that limit, and an ASCII form never splits a character (so it
/// meets the evaluator's precondition).
pub proof fn law_failures_are_sound<L: EvalLookup>(
    lookup: L,
    limit: Option<u64>,
    memo: Memo,
    steps: u64,
    s: Seq<char>,
)
    ensures
        failure_is_sound(nullary_spec(lookup, limit, memo, steps, s).0, limit, s),
{
    lemma_nullary_failures(lookup, limit, memo, steps, s);
}

/// Known values win: a form the memo holds evaluates to its memoised value
/// with nothing changed, and one only the lookup knows evaluates to the
/// looked-up value, which the memo then records, with no step taken.
pub proof fn law_known_values_short_circuit<L: EvalLookup>(
    lookup: L,
    limit: Option<u64>,
    memo: Memo,
    steps: u64,
    s: Seq<char>,
)
    ensures
        memo.contains_key(s) ==> nullary_spec(lookup, limit, memo, steps, s) == (
            Ok::<u64, Failure>(memo[s]),
            memo,
            steps,
        ),
        !memo.contains_key(s) ==> (lookup.spec_lookup(s) matches Some(v) ==> nullary_spec(
            lookup,
            limit,
            memo,
            steps,
            s,
        ) == (Ok::<u64, Failure>(v), memo.insert(s, v), steps)),
{
}

/// A failure is inherited by the successor form built on it: `^(x)`, when
/// neither the memo nor the lookup already knows it, fails exactly as `x`
/// fails.
pub proof fn law_successor_inherits_failure<L: EvalLookup>(
    lookup: L,
    limit: Option<u64>,
    memo: Memo,
    steps: u64,
    x: Seq<char>,
)
    requires
        !memo.contains_key(wrap(x)),
        lookup.spec_lookup(wrap(x)) is None,
        nullary_spec(lookup, limit, memo, steps, x).0 is Err,
    ensures
        nullary_spec(lookup, limit, memo, steps, wrap(x)).0 == nullary_spec(lookup, limit, memo, steps, x).0,
{
    reveal_strlit("^(");
    reveal_strlit(")");
    let s = wrap(x);
    assert(s[0] == '^');
    assert(s[1] == '(');
    assert(s.last() == ')');
    assert(s.subrange(2, s.len() - 1) =~= x);
    assert(s != seq!['0']);
}

/// A value is inherited by the successor form built on it: when `x`
/// evaluates to `v` and `v + 1` fits in a `u64`, `^(x)` (unless the memo or
/// the lookup already knows it) evaluates to `v + 1` from the same state, with
/// the same steps, and memoises it.
pub proof fn law_successor_adds_one<L: EvalLookup>(
    lookup: L,
    limit: Option<u64>,
    memo: Memo,
    steps: u64,
    x: Seq<char>,
)
    requires
        !memo.contains_key(wrap(x)),
        lookup.spec_lookup(wrap(x)) is None,
    ensures
        ({
            let inner = nullary_spec(lookup, limit, memo, steps, x);
            let outer = nullary_spec(lookup, limit, memo, steps, wrap(x));
            inner.0 is Ok && inner.0->Ok_0 < u64::MAX ==> {
                &&& outer.0 == Ok::<u64, Failure>((inner.0->Ok_0 + 1) as u64)
                &&& outer.2 == inner.2
                &&& outer.1 == inner.1.insert(wrap(x), (inner.0->Ok_0 + 1) as u64)
            }
        }),
        nullary_spec(lookup, limit, memo, steps, x).0 == Ok::<u64, Failure>(u64::MAX) ==> nullary_spec(
            lookup,
            limit,
            memo,
            steps,
            wrap(x),
        ).0 is Err,
{
    reveal_strlit("^(");
    reveal_strlit(")");
    let s = wrap(x);
    assert(s[0] == '^');
    assert(s[1] == '(');
    assert(s.last() == ')');
    assert(s.subrange(2, s.len() - 1) =~= x);
    assert(s != seq!['0']);
}

/// An iteration form `R(f,a,b)` (unless the memo or the lookup already
/// knows it), with no step limit, evaluates to `f` iterated `b` times from
/// `a` whenever `f` compiles, `a` and `b` evaluate (in that order, each from
/// the memo the previous step left) and every value of the iteration fits in
/// a `u64`: no such form is lost to a spurious failure.
pub proof fn law_iteration_form_completes<L: EvalLookup>(lookup: L, memo: Memo, steps: u64, s: Seq<char>)
    requires
        !memo.contains_key(s),
        lookup.spec_lookup(s) is None,
        s.len() > 0,
        s[0] == 'R',
        inner_spec(s) is Ok,
        split_spec(inner_spec(s)->Ok_0).len() == 3,
        unfreeze_spec(split_spec(inner_spec(s)->Ok_0)[0]) is Ok,
    ensures
        ({
            let a = split_spec(inner_spec(s)->Ok_0);
            let f = unfreeze_spec(a[0])->Ok_0;
            let c = compile_spec(lookup, None, memo, steps, f);
            let rb = nullary_spec(lookup, None, c.1, c.2, a[1]);
            let rc = nullary_spec(lookup, None, rb.1, rb.2, a[2]);
            c.0 is Ok && rb.0 is Ok && rc.0 is Ok && iteration_fits(
                c.0->Ok_0,
                rb.0->Ok_0 as nat,
                rc.0->Ok_0 as nat,
            ) ==> nullary_spec(lookup, None, memo, steps, s).0 == Ok::<u64, Failure>(
                iterate_math(c.0->Ok_0, rb.0->Ok_0 as nat, rc.0->Ok_0 as nat) as u64,
            )
        }),
{
    let a = split_spec(inner_spec(s)->Ok_0);
    let f = unfreeze_spec(a[0])->Ok_0;
    let c = compile_spec(lookup, None, memo, steps, f);
    let rb = nullary_spec(lookup, None, c.1, c.2, a[1]);
    let rc = nullary_spec(lookup, None, rb.1, rb.2, a[2]);
    assert(s != seq!['0']);
    if c.0 is Ok && rb.0 is Ok && rc.0 is Ok {
        law_iteration_is_complete(rc.2, c.0->Ok_0, rb.0->Ok_0, rc.0->Ok_0);
    }
}

/// `s` is a form with `x` as a nullary argument: `^(x)`, or `R(f,a,b)` with
/// `x` as `a` or as `b`.
pub open spec fn has_argument(s: Seq<char>, x: Seq<char>) -> bool {
    ||| s == wrap(x)
    ||| {
        &&& s.len() > 0
        &&& s[0] == 'R'
        &&& inner_spec(s) matches Ok(i)
        &&& split_spec(i).len() == 3
        &&& (split_spec(i)[1] == x || split_spec(i)[2] == x)
    }
}

/// `x` has no value a `u64` holds: it is not a form, or it denotes a number
/// beyond `u64::MAX`.
pub open spec fn has_no_u64_value(x: Seq<char>) -> bool {
    match value_of(x) {
        None => true,
        Some(v) => v > u64::MAX,
    }
}

/// A failure reaches every superterm: when an argument `x` of `s` has no
/// value a `u64` holds, `s` (unless the memo or the lookup already holds it)
/// evaluates to no value, under any limit, as long as the memo and the lookup
/// hold only the values their forms denote. With no limit and an ASCII `s`,
/// the failure is a malformed form or an overflow.
pub proof fn law_failure_reaches_superterms<L: EvalLookup>(
    lookup: L,
    limit: Option<u64>,
    memo: Memo,
    steps: u64,
    s: Seq<char>,
    x: Seq<char>,
)
    requires
        truthful(lookup, memo),
        !memo.contains_key(s),
        lookup.spec_lookup(s) is None,
        has_argument(s, x),
        has_no_u64_value(x),
    ensures
        nullary_spec(lookup, limit, memo, steps, s).0 is Err,
        limit is None && all_ascii(s) ==> (nullary_spec(lookup, limit, memo, steps, s).0 matches Err(e)
            && (e is Malformed || e is Overflow)),
{
    lemma_nullary_failures(lookup, limit, memo, steps, s);
    if s == wrap(x) {
        reveal_strlit("^(");
        reveal_strlit(")");
        assert(s[0] == '^');
        assert(s[1] == '(');
        assert(s.last() == ')');
        assert(s.subrange(2, s.len() - 1) =~= x);
        assert(s != seq!['0']);
        lemma_nullary_truthful(lookup, limit, memo, steps, x);
    } else {
        let i = inner_spec(s)->Ok_0;
        let a = split_spec(i);
        assert(s != seq!['0']);
        lemma_split_lengths(i);
        lemma_unfreeze_len(a[0]);
        if let Ok(f) = unfreeze_spec(a[0]) {
            lemma_compile_truthful(lookup, limit, memo, steps, f);
            let (cu, memo1, steps1) = compile_spec(lookup, limit, memo, steps, f);
            if cu is Ok {
                lemma_nullary_truthful(lookup, limit, memo1, steps1, a[1]);
                let (rb, memo2, steps2) = nullary_spec(lookup, limit, memo1, steps1, a[1]);
                if rb is Ok {
                    lemma_nullary_truthful(lookup, limit, memo2, steps2, a[2]);
                }
            }
        }
    }
}

/// Whether a result is the verdict that a form is malformed.
pub open spec fn is_malformed<T>(r: Result<T, Failure>) -> bool {
    r matches Err(Failure::Malformed(_))
}

proof fn lemma_malformed_nullary<L: EvalLookup>(
    lookup: L,
    limit: Option<u64>,
    memo: Memo,
    steps: u64,
    s: Seq<char>,
)
    requires
        truthful(lookup, memo),
    ensures
        is_malformed(nullary_spec(lookup, limit, memo, steps, s).0) ==> value_of(s) is None,
    decreases s.len(),
{
    if memo.contains_key(s) {
    } else if lookup.spec_lookup(s) is Some {
    } else if s == seq!['0'] {
    } else if s.len() > 0 && s[0] == '^' {
        if let Ok(i) = inner_spec(s) {
            lemma_malformed_nullary(lookup, limit, memo, steps, i);
        }
    } else if s.len() > 0 && s[0] == 'R' {
        if let Ok(i) = inner_spec(s) {
            let a = split_spec(i);
            lemma_split_lengths(i);
            lemma_unfreeze_len(a[0]);
            if a.len() == 3 {
                if let Ok(f) = unfreeze_spec(a[0]) {
                    lemma_malformed_compile(lookup, limit, memo, steps, f);
                    lemma_compile_truthful(lookup, limit, memo, steps, f);
                    let (cu, memo1, steps1) = compile_spec(lookup, limit, memo, steps, f);
                    if let Ok(unary) = cu {
                        lemma_malformed_nullary(lookup, limit, memo1, steps1, a[1]);
                        lemma_nullary_truthful(lookup, limit, memo1, steps1, a[1]);
                        let (rb, memo2, steps2) = nullary_spec(lookup, limit, memo1, steps1, a[1]);
                        if let Ok(base) = rb {
                            lemma_malformed_nullary(lookup, limit, memo2, steps2, a[2]);
                            let (rc, memo3, steps3) = nullary_spec(lookup, limit, memo2, steps2, a[2]);
                            if let Ok(count) = rc {
                                lemma_iterate_failures(limit, steps3, unary, base, count);
                            }
                        }
                    } else if is_malformed(cu) {
                        assert(unary_meaning(f, 0) is None);
                        if value_of(a[1]) is Some && value_of(a[2]) is Some {
                            assert(iterate_meaning(f, value_of(a[1])->0, value_of(a[2])->0) is None);
                        }
                    }
                }
            }
        }
    }
}

proof fn lemma_malformed_compile<L: EvalLookup>(
    lookup: L,
    limit: Option<u64>,
    memo: Memo,
    steps: u64,
    u: Seq<char>,
)
    requires
        truthful(lookup, memo),
    ensures
        is_malformed(compile_spec(lookup, limit, memo, steps, u).0) ==> forall|n: nat| #[trigger]
            unary_meaning(u, n) is None,
    decreases u.len(),
{
    if u == seq!['*'] {
    } else if u.len() > 0 && u[0] == '^' {
        if let Ok(i) = inner_spec(u) {
            lemma_malformed_compile(lookup, limit, memo, steps, i);
            if is_malformed(compile_spec(lookup, limit, memo, steps, i).0) {
                assert forall|n: nat| #[trigger] unary_meaning(u, n) is None by {
                    assert(unary_meaning(i, n) is None);
                }
            }
        }
    } else if u.len() > 0 && u[0] == 'R' {
        if let Ok(i) = inner_spec(u) {
            let a = split_spec(i);
            lemma_split_lengths(i);
            lemma_unfreeze_len(a[0]);
            if a.len() == 3 {
                if let Ok(f) = unfreeze_spec(a[0]) {
                    lemma_malformed_compile(lookup, limit, memo, steps, f);
                    lemma_compile_truthful(lookup, limit, memo, steps, f);
                    let (rop, memo1, steps1) = compile_spec(lookup, limit, memo, steps, f);
                    if let Ok(op) = rop {
                        if a[1] == seq!['*'] {
                            lemma_malformed_nullary(lookup, limit, memo1, steps1, a[2]);
                        } else if a[2] == seq!['*'] {
                            lemma_malformed_nullary(lookup, limit, memo1, steps1, a[1]);
                        }
                        if is_malformed(compile_spec(lookup, limit, memo, steps, u).0) {
                            assert forall|n: nat| #[trigger] unary_meaning(u, n) is None by {
                                if a[1] == seq!['*'] {
                                    assert(value_of(a[2]) is None);
                                } else if a[2] == seq!['*'] {
                                    assert(value_of(a[1]) is None);
                                }
                            }
                        }
                    } else if is_malformed(rop) {
                        assert(unary_meaning(f, 0) is None);
                        assert forall|n: nat| #[trigger] unary_meaning(u, n) is None by {
                            if a[1] == seq!['*'] {
                                if let Some(b) = value_of(a[2]) {
                                    assert(iterate_meaning(f, b, n) is None);
                                }
                            } else if a[2] == seq!['*'] {
                                if let Some(c) = value_of(a[1]) {
                                    assert(iterate_meaning(f, n, c) is None);
                                }
                            }
                        }
                    }
                }
            }
        }
    }
}

/// A form the evaluator finds malformed has no value: whatever the limit,
/// when the memo and the lookup hold only the values their forms denote, a
/// `Malformed` verdict on `x` means `x` denotes no number (so, by
/// `law_failure_reaches_superterms`, every superterm of `x` fails too).
pub proof fn law_malformed_forms_have_no_value<L: EvalLookup>(
    lookup: L,
    limit: Option<u64>,
    memo: Memo,
    steps: u64,
    x: Seq<char>,
)
    requires
        truthful(lookup, memo),
    ensures
        is_malformed(nullary_spec(lookup, limit, memo, steps, x).0) ==> value_of(x) is None
            && has_no_u64_value(x),
{
    lemma_malformed_nullary(lookup, limit, memo, steps, x);
}

/// A malformed verdict on an argument reaches the superterm: when an
/// evaluation of `x` (under any limit, with a memo holding only denoted
/// values) finds it malformed, a superterm `s` of `x` that the memo and the
/// lookup do not hold evaluates to no value, under any limit; with no limit
/// and an ASCII `s`, it is a malformed form or an overflow.
pub proof fn law_malformed_argument_fails_superterms<L: EvalLookup>(
    lookup: L,
    limit: Option<u64>,
    memo: Memo,
    steps: u64,
    s: Seq<char>,
    x: Seq<char>,
    x_limit: Option<u64>,
    x_memo: Memo,
    x_steps: u64,
)
    requires
        truthful(lookup, memo),
        truthful(lookup, x_memo),
        !memo.contains_key(s),
        lookup.spec_lookup(s) is None,
        has_argument(s, x),
        is_malformed(nullary_spec(lookup, x_limit, x_memo, x_steps, x).0),
    ensures
        nullary_spec(lookup, limit, memo, steps, s).0 is Err,
        limit is None && all_ascii(s) ==> (nullary_spec(lookup, limit, memo, steps, s).0 matches Err(e)
            && (e is Malformed || e is Overflow)),
{
    law_malformed_forms_have_no_value(lookup, x_limit, x_memo, x_steps, x);
    law_failure_reaches_superterms(lookup, limit, memo, steps, s, x);
}

/// `after` keeps every entry of `before`, with its value.
pub open spec fn memo_extends(after: Memo, before: Memo) -> bool {
    forall|k: Seq<char>| #[trigger] before.contains_key(k) ==> after.contains_key(k) && after[k] == before[k]
}

proof fn lemma_extends_trans(a: Memo, b: Memo, c: Memo)
    requires
        memo_extends(b, a),
        memo_extends(c, b),
    ensures
        memo_extends(c, a),
{
}

proof fn lemma_nullary_grows<L: EvalLookup>(lookup: L, limit: Option<u64>, memo: Memo, steps: u64, s: Seq<char>)
    ensures
        memo_extends(nullary_spec(lookup, limit, memo, steps, s).1, memo),
        nullary_spec(lookup, limit, memo, steps, s).0 matches Ok(v) ==> nullary_spec(
            lookup,
            limit,
            memo,
            steps,
            s,
        ).1.contains_key(s) && nullary_spec(lookup, limit, memo, steps, s).1[s] == v,
    decreases s.len(),
{
    if memo.contains_key(s) {
    } else if lookup.spec_lookup(s) is Some {
    } else if s == seq!['0'] {
    } else if s.len() > 0 && s[0] == '^' {
        if let Ok(i) = inner_spec(s) {
            lemma_nullary_grows(lookup, limit, memo, steps, i);
        }
    } else if s.len() > 0 && s[0] == 'R' {
        if let Ok(i) = inner_spec(s) {
            let a = split_spec(i);
            lemma_split_lengths(i);
            lemma_unfreeze_len(a[0]);
            if a.len() == 3 {
                if let Ok(f) = unfreeze_spec(a[0]) {
                    lemma_compile_grows(lookup, limit, memo, steps, f);
                    let (cu, memo1, steps1) = compile_spec(lookup, limit, memo, steps, f);
                    if let Ok(unary) = cu {
                        lemma_nullary_grows(lookup, limit, memo1, steps1, a[1]);
                        let (rb, memo2, steps2) = nullary_spec(lookup, limit, memo1, steps1, a[1]);
                        lemma_extends_trans(memo, memo1, memo2);
                        if let Ok(base) = rb {
                            lemma_nullary_grows(lookup, limit, memo2, steps2, a[2]);
                            let (rc, memo3, steps3) = nullary_spec(lookup, limit, memo2, steps2, a[2]);
                            lemma_extends_trans(memo, memo2, memo3);
                        }
                    }
                }
            }
        }
    }
}

proof fn lemma_compile_grows<L: EvalLookup>(lookup: L, limit: Option<u64>, memo: Memo, steps: u64, u: Seq<char>)
    ensures
        memo_extends(compile_spec(lookup, limit, memo, steps, u).1, memo),
    decreases u.len(),
{
    if u == seq!['*'] {
    } else if u.len() > 0 && u[0] == '^' {
        if let Ok(i) = inner_spec(u) {
            lemma_compile_grows(lookup, limit, memo, steps, i);
        }
    } else if u.len() > 0 && u[0] == 'R' {
        if let Ok(i) = inner_spec(u) {
            let a = split_spec(i);
            lemma_split_lengths(i);
            lemma_unfreeze_len(a[0]);
            if a.len() == 3 {
                if let Ok(f) = unfreeze_spec(a[0]) {
                    lemma_compile_grows(lookup, limit, memo, steps, f);
                    let (rop, memo1, steps1) = compile_spec(lookup, limit, memo, steps, f);
                    if let Ok(op) = rop {
                        if a[1] == seq!['*'] {
                            lemma_nullary_grows(lookup, limit, memo1, steps1, a[2]);
                            lemma_extends_trans(memo, memo1, nullary_spec(lookup, limit, memo1, steps1, a[2]).1);
                        } else if a[2] == seq!['*'] {
                            lemma_nullary_grows(lookup, limit, memo1, steps1, a[1]);
                            lemma_extends_trans(memo, memo1, nullary_spec(lookup, limit, memo1, steps1, a[1]).1);
                        }
                    }
                }
            }
        }
    }
}

/// The memo only grows: an evaluation keeps every entry the memo held, with
/// its value, a form it evaluates to a value is memoised with that value,
/// and a form the memo already holds is answered from it with nothing changed
/// (neither the lookup nor the step counter is consulted).
pub proof fn law_memo_only_grows<L: EvalLookup>(
    lookup: L,
    limit: Option<u64>,
    memo: Memo,
    steps: u64,
    s: Seq<char>,
)
    ensures
        memo_extends(nullary_spec(lookup, limit, memo, steps, s).1, memo),
        nullary_spec(lookup, limit, memo, steps, s).0 matches Ok(v) ==> nullary_spec(
            lookup,
            limit,
            memo,
            steps,
            s,
        ).1.contains_key(s) && nullary_spec(lookup, limit, memo, steps, s).1[s] == v,
        memo.contains_key(s) ==> nullary_spec(lookup, limit, memo, steps, s) == (
            Ok::<u64, Failure>(memo[s]),
            memo,
            steps,
        ),
{
    lemma_nullary_grows(lookup, limit, memo, steps, s);
}

/// Limit `l1` is no larger than limit `l2` (no limit is the largest).
pub open spec fn limit_at_most(l1: Option<u64>, l2: Option<u64>) -> bool {
    match l2 {
        None => true,
        Some(b) => match l1 {
            Some(a) => a <= b,
            None => false,
        },
    }
}

proof fn lemma_apply_limits(l1: Option<u64>, l2: Option<u64>, steps: u64, u: Unary, n: u64)
    requires
        limit_at_most(l1, l2),
    ensures
        apply_spec(l1, steps, u, n) == apply_spec(l2, steps, u, n) || (l1 matches Some(l) && apply_spec(
            l1,
            steps,
            u,
            n,
        ).0 == Err::<u64, Failure>(Failure::StepLimit(l))),
    decreases u, 1nat, 0nat,
{
    let (c1, s1) = crate::evaluator::step_spec(l1, steps);
    let (c2, s2) = crate::evaluator::step_spec(l2, steps);
    assert(s1 == s2);
    if c1 is Ok {
        assert(c2 is Ok);
        match u {
            Unary::Linear { mul, add } => {},
            Unary::Succ(op) => {
                lemma_apply_limits(l1, l2, s1, *op, n);
            },
            Unary::IterConstBase { op, base } => {
                lemma_iterate_limits(l1, l2, s1, *op, base, n);
            },
            Unary::IterFixedCount { op, count } => {
                lemma_iterate_limits(l1, l2, s1, *op, n, count);
            },
        }
    }
}

proof fn lemma_iterate_limits(l1: Option<u64>, l2: Option<u64>, steps: u64, op: Unary, base: u64, countdown: u64)
    requires
        limit_at_most(l1, l2),
    ensures
        iterate_spec(l1, steps, op, base, countdown) == iterate_spec(l2, steps, op, base, countdown) || (l1 matches Some(
            l,
        ) && iterate_spec(l1, steps, op, base, countdown).0 == Err::<u64, Failure>(Failure::StepLimit(l))),
    decreases op, 2nat, countdown,
{
    match op {
        Unary::Linear { mul, add } => {},
        _ => {
            if countdown > 0 {
                lemma_apply_limits(l1, l2, steps, op, base);
                let (r, steps1) = apply_spec(l1, steps, op, base);
                if apply_spec(l1, steps, op, base) == apply_spec(l2, steps, op, base) {
                    if let Ok(v) = r {
                        lemma_iterate_limits(l1, l2, steps1, op, v, (countdown - 1) as u64);
                    }
                }
            }
        },
    }
}

proof fn lemma_nullary_limits<L: EvalLookup>(
    lookup: L,
    l1: Option<u64>,
    l2: Option<u64>,
    memo: Memo,
    steps: u64,
    s: Seq<char>,
)
    requires
        limit_at_most(l1, l2),
    ensures
        nullary_spec(lookup, l1, memo, steps, s) == nullary_spec(lookup, l2, memo, steps, s) || (l1 matches Some(
            l,
        ) && nullary_spec(lookup, l1, memo, steps, s).0 == Err::<u64, Failure>(Failure::StepLimit(l))),
    decreases s.len(),
{
    if memo.contains_key(s) {
    } else if lookup.spec_lookup(s) is Some {
    } else if s == seq!['0'] {
    } else if s.len() > 0 && s[0] == '^' {
        if let Ok(i) = inner_spec(s) {
            lemma_nullary_limits(lookup, l1, l2, memo, steps, i);
        }
    } else if s.len() > 0 && s[0] == 'R' {
        if let Ok(i) = inner_spec(s) {
            let a = split_spec(i);
            lemma_split_lengths(i);
            lemma_unfreeze_len(a[0]);
            if a.len() == 3 {
                if let Ok(f) = unfreeze_spec(a[0]) {
                    lemma_compile_limits(lookup, l1, l2, memo, steps, f);
                    if compile_spec(lookup, l1, memo, steps, f) == compile_spec(lookup, l2, memo, steps, f) {
                        let (cu, memo1, steps1) = compile_spec(lookup, l1, memo, steps, f);
                        if let Ok(unary) = cu {
                            lemma_nullary_limits(lookup, l1, l2, memo1, steps1, a[1]);
                            if nullary_spec(lookup, l1, memo1, steps1, a[1]) == nullary_spec(lookup, l2, memo1, steps1, a[1]) {
                                let (rb, memo2, steps2) = nullary_spec(lookup, l1, memo1, steps1, a[1]);
                                if let Ok(base) = rb {
                                    lemma_nullary_limits(lookup, l1, l2, memo2, steps2, a[2]);
                                    if nullary_spec(lookup, l1, memo2, steps2, a[2]) == nullary_spec(lookup, l2, memo2, steps2, a[2]) {
                                        let (rc, memo3, steps3) = nullary_spec(lookup, l1, memo2, steps2, a[2]);
                                        if let Ok(count) = rc {
                                            lemma_iterate_limits(l1, l2, steps3, unary, base, count);
                                        }
                                    }
                                }
                            }
                        }
                    }
                }
            }
        }
    }
}

proof fn lemma_compile_limits<L: EvalLookup>(
    lookup: L,
    l1: Option<u64>,
    l2: Option<u64>,
    memo: Memo,
    steps: u64,
    u: Seq<char>,
)
    requires
        limit_at_most(l1, l2),
    ensures
        compile_spec(lookup, l1, memo, steps, u) == compile_spec(lookup, l2, memo, steps, u) || (l1 matches Some(
            l,
        ) && compile_spec(lookup, l1, memo, steps, u).0 == Err::<Unary, Failure>(Failure::StepLimit(l))),
    decreases u.len(),
{
    if u == seq!['*'] {
    } else if u.len() > 0 && u[0] == '^' {
        if let Ok(i) = inner_spec(u) {
            lemma_compile_limits(lookup, l1, l2, memo, steps, i);
        }
    } else if u.len() > 0 && u[0] == 'R' {
        if let Ok(i) = inner_spec(u) {
            let a = split_spec(i);
            lemma_split_lengths(i);
            lemma_unfreeze_len(a[0]);
            if a.len() == 3 {
                if let Ok(f) = unfreeze_spec(a[0]) {
                    lemma_compile_limits(lookup, l1, l2, memo, steps, f);
                    if compile_spec(lookup, l1, memo, steps, f) == compile_spec(lookup, l2, memo, steps, f) {
                        let (rop, memo1, steps1) = compile_spec(lookup, l1, memo, steps, f);
                        if let Ok(op) = rop {
                            if a[1] == seq!['*'] {
                                lemma_nullary_limits(lookup, l1, l2, memo1, steps1, a[2]);
                            } else if a[2] == seq!['*'] {
                                lemma_nullary_limits(lookup, l1, l2, memo1, steps1, a[1]);
                            }
                        }
                    }
                }
            }
        }
    }
}

/// A step limit only ever stops an evaluation: under a limit, an evaluation
/// gives what it gives under any larger limit (or none), memo and steps
/// included, or it fails on that limit. So a form that evaluates under a
/// limit evaluates to the same value under every larger one.
pub proof fn law_larger_limit_agrees<L: EvalLookup>(
    lookup: L,
    limit: u64,
    larger: Option<u64>,
    memo: Memo,
    steps: u64,
    s: Seq<char>,
)
    requires
        larger matches Some(b) ==> limit <= b,
    ensures
        nullary_spec(lookup, Some(limit), memo, steps, s) == nullary_spec(lookup, larger, memo, steps, s)
            || nullary_spec(lookup, Some(limit), memo, steps, s).0 == Err::<u64, Failure>(
            Failure::StepLimit(limit),
        ),
{
    lemma_nullary_limits(lookup, Some(limit), larger, memo, steps, s);
}

} // verus!
