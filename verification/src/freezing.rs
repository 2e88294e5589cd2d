//! Freezing and unfreezing the hole of a unary: the grammar's unaries come
//! back unchanged from `unfreeze_spec` once frozen.
use vstd::prelude::*;
use vstd::string::*;
use crate::form::{hash_mark, inner_spec, split_from, split_spec, unfreeze_spec, Failure};
use crate::grammar::{freeze, lemma_star_from, replace_first_star, rform, star_from, wrap};

verus! {

/// The bracket depth after the first `i` characters of `s`.
pub open spec fn paren_depth(s: Seq<char>, i: int) -> int
    decreases i,
{
    if i <= 0 {
        0
    } else {
        paren_depth(s, i - 1) + if s[i - 1] == '(' {
            1int
        } else if s[i - 1] == ')' {
            -1int
        } else {
            0int
        }
    }
}

/// Whether `s` closes every bracket it opens and holds no comma outside its
/// brackets, so that a split never cuts it.
pub open spec fn clean(s: Seq<char>) -> bool {
    &&& paren_depth(s, s.len() as int) == 0
    &&& forall|i: int| 0 <= i < s.len() && s[i] == ',' ==> #[trigger] paren_depth(s, i) > 0
}

/// Scanning a clean stretch of text from depth zero ends at depth zero with
/// nothing split off.
proof fn lemma_split_over_clean(
    s: Seq<char>,
    i0: int,
    j: int,
    k: int,
    start: int,
    acc: Seq<Seq<char>>,
)
    requires
        0 <= i0 <= i0 + k <= j <= s.len(),
        clean(s.subrange(i0, j)),
    ensures
        split_from(s, i0 + k, paren_depth(s.subrange(i0, j), k), start, acc) == split_from(s, j, 0, start, acc),
    decreases j - i0 - k,
{
    let seg = s.subrange(i0, j);
    if i0 + k < j {
        let i = i0 + k;
        assert(s[i] == seg[k]);
        assert(paren_depth(seg, k + 1) == paren_depth(seg, k) + if seg[k] == '(' {
            1int
        } else if seg[k] == ')' {
            -1int
        } else {
            0int
        });
        if seg[k] == ',' {
            assert(paren_depth(seg, k) > 0);
        }
        lemma_split_over_clean(s, i0, j, k + 1, start, acc);
    }
}

/// Three clean pieces joined by commas split back into themselves.
pub proof fn lemma_split_three(a: Seq<char>, b: Seq<char>, c: Seq<char>)
    requires
        clean(a),
        clean(b),
        clean(c),
    ensures
        split_spec(a + seq![','] + b + seq![','] + c) == seq![a, b, c],
{
    let s = a + seq![','] + b + seq![','] + c;
    let la = a.len() as int;
    let lb = b.len() as int;
    let n = s.len() as int;
    assert(s.subrange(0, la) =~= a);
    assert(s.subrange(la + 1, la + 1 + lb) =~= b);
    assert(s.subrange(la + 2 + lb, n) =~= c);
    assert(s[la] == ',');
    assert(s[la + 1 + lb] == ',');
    let e = Seq::<Seq<char>>::empty();
    lemma_split_over_clean(s, 0, la, 0, 0, e);
    let acc1 = e.push(a);
    lemma_split_over_clean(s, la + 1, la + 1 + lb, 0, la + 1, acc1);
    let acc2 = acc1.push(b);
    lemma_split_over_clean(s, la + 2 + lb, n, 0, la + 2 + lb, acc2);
    assert(acc2.push(c) =~= seq![a, b, c]);
}

/// Every comma of `s` stands below depth zero when `s` is entered at depth `d`.
pub open spec fn commas_nested(s: Seq<char>, d: int) -> bool {
    forall|i: int| 0 <= i < s.len() && s[i] == ',' ==> #[trigger] paren_depth(s, i) + d > 0
}

/// Depths across a concatenation.
proof fn lemma_depth_concat(a: Seq<char>, b: Seq<char>)
    ensures
        forall|i: int| 0 <= i <= a.len() ==> #[trigger] paren_depth(a + b, i) == paren_depth(a, i),
        forall|k: int| 0 <= k <= b.len() ==> #[trigger] paren_depth(a + b, a.len() + k) == paren_depth(
            a,
            a.len() as int,
        ) + paren_depth(b, k),
{
    assert forall|i: int| 0 <= i <= a.len() implies #[trigger] paren_depth(a + b, i) == paren_depth(a, i) by {
        lemma_depth_prefix(a, b, i);
    }
    assert forall|k: int| 0 <= k <= b.len() implies #[trigger] paren_depth(a + b, a.len() + k) == paren_depth(
        a,
        a.len() as int,
    ) + paren_depth(b, k) by {
        lemma_depth_suffix(a, b, k);
    }
}

proof fn lemma_depth_prefix(a: Seq<char>, b: Seq<char>, i: int)
    requires
        0 <= i <= a.len(),
    ensures
        paren_depth(a + b, i) == paren_depth(a, i),
    decreases i,
{
    if i > 0 {
        lemma_depth_prefix(a, b, i - 1);
        assert((a + b)[i - 1] == a[i - 1]);
    }
}

proof fn lemma_depth_suffix(a: Seq<char>, b: Seq<char>, k: int)
    requires
        0 <= k <= b.len(),
    ensures
        paren_depth(a + b, a.len() + k) == paren_depth(a, a.len() as int) + paren_depth(b, k),
    decreases k,
{
    if k == 0 {
        lemma_depth_prefix(a, b, a.len() as int);
    } else {
        lemma_depth_suffix(a, b, k - 1);
        assert((a + b)[a.len() + k - 1] == b[k - 1]);
    }
}

/// Nested commas stay nested across a concatenation.
proof fn lemma_commas_concat(a: Seq<char>, b: Seq<char>, d: int)
    requires
        commas_nested(a, d),
        commas_nested(b, d + paren_depth(a, a.len() as int)),
    ensures
        commas_nested(a + b, d),
        paren_depth(a + b, (a + b).len() as int) == paren_depth(a, a.len() as int) + paren_depth(b, b.len() as int),
{
    lemma_depth_concat(a, b);
    let s = a + b;
    assert forall|i: int| 0 <= i < s.len() && s[i] == ',' implies #[trigger] paren_depth(s, i) + d > 0 by {
        if i < a.len() {
            assert(s[i] == a[i]);
            assert(paren_depth(s, i) == paren_depth(a, i));
        } else {
            let k = i - a.len();
            assert(s[i] == b[k]);
            assert(paren_depth(s, a.len() + k) == paren_depth(a, a.len() as int) + paren_depth(b, k));
        }
    }
    assert(paren_depth(s, (a.len() + b.len()) as int) == paren_depth(a, a.len() as int) + paren_depth(b, b.len() as int));
}

/// A text without brackets or commas.
pub open spec fn plain(s: Seq<char>) -> bool {
    forall|i: int| 0 <= i < s.len() ==> #[trigger] s[i] != '(' && s[i] != ')' && s[i] != ','
}

proof fn lemma_plain_depth(s: Seq<char>, i: int)
    requires
        plain(s),
        0 <= i <= s.len(),
    ensures
        paren_depth(s, i) == 0,
    decreases i,
{
    if i > 0 {
        lemma_plain_depth(s, i - 1);
        assert(s[i - 1] != '(' && s[i - 1] != ')');
    }
}

/// A plain text is clean.
pub proof fn lemma_plain_clean(s: Seq<char>)
    requires
        plain(s),
    ensures
        clean(s),
        forall|d: int| commas_nested(s, d),
{
    lemma_plain_depth(s, s.len() as int);
}

/// `^(x)` is clean when `x` is.
pub proof fn lemma_wrap_clean(x: Seq<char>)
    requires
        clean(x),
    ensures
        clean(seq!['^', '('] + x + seq![')']),
{
    let a = seq!['^', '('];
    let c = seq![')'];
    reveal_with_fuel(paren_depth, 3);
    assert(a[0] == '^' && a[1] == '(' && c[0] == ')');
    assert(paren_depth(a, 2) == 1);
    assert(commas_nested(a, 0));
    assert(commas_nested(x, 1));
    lemma_commas_concat(a, x, 0);
    assert(paren_depth(c, 1) == -1);
    assert(commas_nested(c, 1));
    lemma_commas_concat(a + x, c, 0);
}

/// `R(a,b,c)` is clean when its three arguments are.
pub proof fn lemma_rform_clean(a: Seq<char>, b: Seq<char>, c: Seq<char>)
    requires
        clean(a),
        clean(b),
        clean(c),
    ensures
        clean(seq!['R', '('] + a + seq![','] + b + seq![','] + c + seq![')']),
{
    let o = seq!['R', '('];
    let m = seq![','];
    let z = seq![')'];
    reveal_with_fuel(paren_depth, 3);
    assert(o[0] == 'R' && o[1] == '(' && m[0] == ',' && z[0] == ')');
    assert(paren_depth(o, 2) == 1);
    assert(paren_depth(m, 1) == 0);
    assert(paren_depth(z, 1) == -1);
    assert(commas_nested(o, 0));
    assert(commas_nested(a, 1));
    assert(commas_nested(b, 1));
    assert(commas_nested(c, 1));
    assert(commas_nested(m, 1)) by {
        assert(paren_depth(m, 0) == 0);
    }
    assert(commas_nested(z, 1));
    lemma_commas_concat(o, a, 0);
    lemma_commas_concat(o + a, m, 0);
    lemma_commas_concat(o + a + m, b, 0);
    lemma_commas_concat(o + a + m + b, m, 0);
    lemma_commas_concat(o + a + m + b + m, c, 0);
    lemma_commas_concat(o + a + m + b + m + c, z, 0);
}

/// A text without a `*`.
pub open spec fn no_star(s: Seq<char>) -> bool {
    forall|i: int| 0 <= i < s.len() ==> #[trigger] s[i] != '*'
}

/// A text with exactly one `*`, at `p`.
pub open spec fn one_star_at(s: Seq<char>, p: int) -> bool {
    &&& 0 <= p < s.len()
    &&& s[p] == '*'
    &&& forall|q: int| 0 <= q < s.len() && q != p ==> #[trigger] s[q] != '*'
}

proof fn lemma_first_star(s: Seq<char>)
    ensures
        no_star(s) ==> star_from(s, 0) is None,
        forall|p: int| one_star_at(s, p) ==> star_from(s, 0) == Some(p),
{
    lemma_star_from(s, 0);
    assert forall|p: int| one_star_at(s, p) implies star_from(s, 0) == Some(p) by {
        if let Some(p2) = star_from(s, 0) {
            if p2 != p {
                assert(s[p2] != '*');
            }
        }
    }
}

/// Replacing the star of a text with one star.
proof fn lemma_replace_one_star(s: Seq<char>, p: int, w: Seq<char>)
    requires
        one_star_at(s, p),
    ensures
        replace_first_star(s, w) == s.take(p) + w + s.skip(p + 1),
{
    lemma_first_star(s);
}

/// The texts the grammar builds, as terms.
pub ghost enum NullaryTerm {
    Zero,
    Succ(Box<NullaryTerm>),
    Rec(Box<UnaryTerm>, Box<NullaryTerm>, Box<NullaryTerm>),
}

pub ghost enum UnaryTerm {
    Hole,
    Wrap(Box<UnaryTerm>),
    FromBase(Box<UnaryTerm>, Box<NullaryTerm>),
    ForCount(Box<UnaryTerm>, Box<NullaryTerm>),
}

/// `0`, `^(N)` or `R(U#,N,N)`.
pub open spec fn nullary_text(n: NullaryTerm) -> Seq<char>
    decreases n,
{
    match n {
        NullaryTerm::Zero => seq!['0'],
        NullaryTerm::Succ(x) => wrap(nullary_text(*x)),
        NullaryTerm::Rec(f, a, b) => rform(freeze(unary_text(*f)), nullary_text(*a), nullary_text(*b)),
    }
}

/// `^(*)`, `^(U)`, `R(U#,N,*)` or `R(U#,*,N)`.
pub open spec fn unary_text(u: UnaryTerm) -> Seq<char>
    decreases u,
{
    match u {
        UnaryTerm::Hole => wrap(seq!['*']),
        UnaryTerm::Wrap(x) => wrap(unary_text(*x)),
        UnaryTerm::FromBase(f, n) => rform(freeze(unary_text(*f)), nullary_text(*n), seq!['*']),
        UnaryTerm::ForCount(f, n) => rform(freeze(unary_text(*f)), seq!['*'], nullary_text(*n)),
    }
}

proof fn lemma_literals(x: Seq<char>, a: Seq<char>, b: Seq<char>, c: Seq<char>)
    ensures
        wrap(x) == seq!['^', '('] + x + seq![')'],
        rform(a, b, c) == seq!['R', '('] + a + seq![','] + b + seq![','] + c + seq![')'],
{
    reveal_strlit("^(");
    reveal_strlit(")");
    reveal_strlit("R(");
    reveal_strlit(",");
    assert(wrap(x) =~= seq!['^', '('] + x + seq![')']);
    assert(rform(a, b, c) =~= seq!['R', '('] + a + seq![','] + b + seq![','] + c + seq![')']);
}

/// Two texts with their brackets and commas in the same places have the same
/// depths, and one is clean when the other is.
proof fn lemma_same_brackets(s: Seq<char>, t: Seq<char>)
    requires
        s.len() == t.len(),
        forall|i: int| 0 <= i < s.len() ==> ((s[i] == '(') == (t[i] == '(') && (s[i] == ')') == (t[i] == ')')
            && (s[i] == ',') == (t[i] == ',')),
    ensures
        forall|i: int| 0 <= i <= s.len() ==> #[trigger] paren_depth(s, i) == paren_depth(t, i),
        clean(s) ==> clean(t),
{
    assert forall|i: int| 0 <= i <= s.len() implies #[trigger] paren_depth(s, i) == paren_depth(t, i) by {
        lemma_same_depth_upto(s, t, i);
    }
    if clean(s) {
        assert forall|i: int| 0 <= i < t.len() && t[i] == ',' implies #[trigger] paren_depth(t, i) > 0 by {
            assert(s[i] == ',');
            assert(paren_depth(s, i) == paren_depth(t, i));
        }
        assert(paren_depth(s, s.len() as int) == paren_depth(t, t.len() as int));
    }
}

proof fn lemma_same_depth_upto(s: Seq<char>, t: Seq<char>, i: int)
    requires
        s.len() == t.len(),
        0 <= i <= s.len(),
        forall|j: int| 0 <= j < s.len() ==> ((s[j] == '(') == (t[j] == '(') && (s[j] == ')') == (t[j] == ')')
            && (s[j] == ',') == (t[j] == ',')),
    ensures
        paren_depth(s, i) == paren_depth(t, i),
    decreases i,
{
    if i > 0 {
        lemma_same_depth_upto(s, t, i - 1);
    }
}

/// What a nullary text is made of: no `*`, clean, and not `#`.
proof fn lemma_nullary_facts(n: NullaryTerm)
    ensures
        no_star(nullary_text(n)),
        clean(nullary_text(n)),
        nullary_text(n).len() >= 1,
        nullary_text(n)[0] != '#',
    decreases n,
{
    match n {
        NullaryTerm::Zero => {
            assert(plain(seq!['0']));
            lemma_plain_clean(seq!['0']);
        },
        NullaryTerm::Succ(x) => {
            lemma_nullary_facts(*x);
            let xt = nullary_text(*x);
            lemma_literals(xt, xt, xt, xt);
            lemma_wrap_clean(xt);
            let w = seq!['^', '('] + xt + seq![')'];
            assert forall|i: int| 0 <= i < w.len() implies #[trigger] w[i] != '*' by {
                if 2 <= i < 2 + xt.len() {
                    assert(w[i] == xt[i - 2]);
                }
            }
        },
        NullaryTerm::Rec(f, a, b) => {
            let p = lemma_unary_facts(*f);
            lemma_nullary_facts(*a);
            lemma_nullary_facts(*b);
            let ft = freeze(unary_text(*f));
            let at = nullary_text(*a);
            let bt = nullary_text(*b);
            lemma_literals(at, ft, at, bt);
            lemma_rform_clean(ft, at, bt);
            let r = seq!['R', '('] + ft + seq![','] + at + seq![','] + bt + seq![')'];
            assert forall|i: int| 0 <= i < r.len() implies #[trigger] r[i] != '*' by {
                let l1: int = 2 + ft.len() as int;
                let l2: int = l1 + 1 + at.len() as int;
                let l3: int = l2 + 1 + bt.len() as int;
                if 2 <= i < l1 {
                    assert(r[i] == ft[i - 2]);
                } else if l1 + 1 <= i < l2 {
                    assert(r[i] == at[i - l1 - 1]);
                } else if l2 + 1 <= i < l3 {
                    assert(r[i] == bt[i - l2 - 1]);
                }
            }
        },
    }
}

proof fn lemma_wrap_star(x: Seq<char>, q: int)
    requires
        one_star_at(x, q),
        clean(x),
    ensures
        one_star_at(wrap(x), q + 2),
        clean(wrap(x)),
{
    lemma_literals(x, x, x, x);
    lemma_wrap_clean(x);
    let w = seq!['^', '('] + x + seq![')'];
    assert forall|i: int| 0 <= i < w.len() && i != q + 2 implies #[trigger] w[i] != '*' by {
        if 2 <= i < 2 + x.len() {
            assert(w[i] == x[i - 2]);
        }
    }
    assert(w[q + 2] == x[q]);
}

proof fn lemma_rform_star_last(f: Seq<char>, n: Seq<char>)
    requires
        no_star(f),
        clean(f),
        no_star(n),
        clean(n),
    ensures
        one_star_at(rform(f, n, seq!['*']), f.len() + n.len() + 4int),
        clean(rform(f, n, seq!['*'])),
{
    let st = seq!['*'];
    assert(plain(st));
    lemma_plain_clean(st);
    lemma_literals(st, f, n, st);
    lemma_rform_clean(f, n, st);
    let r = seq!['R', '('] + f + seq![','] + n + seq![','] + st + seq![')'];
    let l1: int = 2 + f.len() as int;
    let l2: int = l1 + 1 + n.len() as int;
    assert forall|i: int| 0 <= i < r.len() && i != l2 + 1 implies #[trigger] r[i] != '*' by {
        if 2 <= i < l1 {
            assert(r[i] == f[i - 2]);
        } else if l1 + 1 <= i < l2 {
            assert(r[i] == n[i - l1 - 1]);
        }
    }
    assert(r[l2 + 1] == '*');
}

proof fn lemma_rform_star_middle(f: Seq<char>, n: Seq<char>)
    requires
        no_star(f),
        clean(f),
        no_star(n),
        clean(n),
    ensures
        one_star_at(rform(f, seq!['*'], n), f.len() + 3int),
        clean(rform(f, seq!['*'], n)),
{
    let st = seq!['*'];
    assert(plain(st));
    lemma_plain_clean(st);
    lemma_literals(st, f, st, n);
    lemma_rform_clean(f, st, n);
    let r = seq!['R', '('] + f + seq![','] + st + seq![','] + n + seq![')'];
    let l1: int = 2 + f.len() as int;
    let l3: int = l1 + 3 + n.len() as int;
    assert forall|i: int| 0 <= i < r.len() && i != l1 + 1 implies #[trigger] r[i] != '*' by {
        if 2 <= i < l1 {
            assert(r[i] == f[i - 2]);
        } else if l1 + 3 <= i < l3 {
            assert(r[i] == n[i - l1 - 3]);
        }
    }
    assert(r[l1 + 1] == '*');
}

proof fn lemma_freeze_one_star(u: Seq<char>, p: int)
    requires
        one_star_at(u, p),
        clean(u),
    ensures
        freeze(u) == u.take(p) + seq!['#'] + u.skip(p + 1),
        no_star(freeze(u)),
        clean(freeze(u)),
{
    reveal_strlit("#");
    assert("#"@ =~= seq!['#']);
    lemma_replace_one_star(u, p, seq!['#']);
    let fz = u.take(p) + seq!['#'] + u.skip(p + 1);
    assert(fz.len() == u.len());
    assert forall|i: int| 0 <= i < fz.len() implies #[trigger] fz[i] != '*' && ((u[i] == '(') == (fz[i] == '(')
        && (u[i] == ')') == (fz[i] == ')') && (u[i] == ',') == (fz[i] == ',')) by {
        if i < p {
            assert(fz[i] == u[i]);
        } else if i > p {
            assert(fz[i] == u[i]);
        }
    }
    lemma_same_brackets(u, fz);
}

/// What a unary text is made of: one `*`, clean, and clean and without a
/// `*` once frozen.
proof fn lemma_unary_facts(u: UnaryTerm) -> (p: int)
    ensures
        one_star_at(unary_text(u), p),
        clean(unary_text(u)),
        no_star(freeze(unary_text(u))),
        clean(freeze(unary_text(u))),
    decreases u,
{
    let p: int = match u {
        UnaryTerm::Hole => {
            let st = seq!['*'];
            assert(plain(st));
            lemma_plain_clean(st);
            assert(one_star_at(st, 0));
            lemma_wrap_star(st, 0);
            2
        },
        UnaryTerm::Wrap(x) => {
            let q = lemma_unary_facts(*x);
            lemma_wrap_star(unary_text(*x), q);
            q + 2
        },
        UnaryTerm::FromBase(f, n) => {
            lemma_unary_facts(*f);
            lemma_nullary_facts(*n);
            let ft = freeze(unary_text(*f));
            let nt = nullary_text(*n);
            lemma_rform_star_last(ft, nt);
            ft.len() + nt.len() + 4int
        },
        UnaryTerm::ForCount(f, n) => {
            lemma_unary_facts(*f);
            lemma_nullary_facts(*n);
            let ft = freeze(unary_text(*f));
            let nt = nullary_text(*n);
            lemma_rform_star_middle(ft, nt);
            ft.len() + 3int
        },
    };
    lemma_freeze_one_star(unary_text(u), p);
    p
}

proof fn lemma_unfreeze_hole()
    ensures
        unfreeze_spec(freeze(wrap(seq!['*']))) == Ok::<Seq<char>, Failure>(wrap(seq!['*'])),
{
    let st = seq!['*'];
    let ut = wrap(st);
    lemma_literals(st, st, st, st);
    assert(plain(st));
    lemma_plain_clean(st);
    assert(one_star_at(st, 0));
    lemma_wrap_star(st, 0);
    lemma_freeze_one_star(ut, 2);
    let fz = freeze(ut);
    assert(fz =~= seq!['^', '(', '#', ')']);
    assert(fz != hash_mark());
    assert(inner_spec(fz) == Ok::<Seq<char>, Failure>(seq!['#'])) by {
        assert(fz.subrange(2, fz.len() - 1) =~= seq!['#']);
    }
    assert(unfreeze_spec(seq!['#']) == Ok::<Seq<char>, Failure>(seq!['*']));
    assert(seq!['^', '('] + seq!['*'] + seq![')'] =~= ut);
}

proof fn lemma_unfreeze_wrap(xt: Seq<char>, q: int)
    requires
        one_star_at(xt, q),
        clean(xt),
        unfreeze_spec(freeze(xt)) == Ok::<Seq<char>, Failure>(xt),
    ensures
        unfreeze_spec(freeze(wrap(xt))) == Ok::<Seq<char>, Failure>(wrap(xt)),
{
    let ut = wrap(xt);
    lemma_wrap_star(xt, q);
    lemma_freeze_one_star(xt, q);
    lemma_freeze_one_star(ut, q + 2);
    lemma_literals(xt, xt, xt, xt);
    let fx = freeze(xt);
    let fz = freeze(ut);
    assert(fz =~= seq!['^', '('] + fx + seq![')']);
    assert(fz != hash_mark());
    assert(inner_spec(fz) == Ok::<Seq<char>, Failure>(fx)) by {
        assert(fz.subrange(2, fz.len() - 1) =~= fx);
    }
}

proof fn lemma_unfreeze_from_base(ft: Seq<char>, nt: Seq<char>)
    requires
        no_star(ft),
        clean(ft),
        no_star(nt),
        clean(nt),
        nt.len() >= 1,
        nt[0] != '#',
    ensures
        unfreeze_spec(freeze(rform(ft, nt, seq!['*']))) == Ok::<Seq<char>, Failure>(rform(ft, nt, seq!['*'])),
{
    let st = seq!['*'];
    let hs = seq!['#'];
    let ut = rform(ft, nt, st);
    lemma_rform_star_last(ft, nt);
    lemma_freeze_one_star(ut, ft.len() + nt.len() + 4int);
    lemma_literals(st, ft, nt, st);
    let fz = freeze(ut);
    let mid = ft + seq![','] + nt + seq![','] + hs;
    assert(fz =~= seq!['R', '('] + mid + seq![')']);
    assert(fz != hash_mark());
    assert(inner_spec(fz) == Ok::<Seq<char>, Failure>(mid)) by {
        assert(fz.subrange(2, fz.len() - 1) =~= mid);
    }
    assert(plain(hs));
    lemma_plain_clean(hs);
    lemma_split_three(ft, nt, hs);
    let a = split_spec(mid);
    assert(a[1] != hash_mark()) by {
        assert(a[1][0] != '#');
    }
    assert(a[2] == hash_mark());
    assert(seq!['R', '('] + a[0] + seq![','] + a[1] + seq![',', '*', ')'] =~= ut);
}

proof fn lemma_unfreeze_for_count(ft: Seq<char>, nt: Seq<char>)
    requires
        no_star(ft),
        clean(ft),
        no_star(nt),
        clean(nt),
    ensures
        unfreeze_spec(freeze(rform(ft, seq!['*'], nt))) == Ok::<Seq<char>, Failure>(rform(ft, seq!['*'], nt)),
{
    let st = seq!['*'];
    let hs = seq!['#'];
    let ut = rform(ft, st, nt);
    lemma_rform_star_middle(ft, nt);
    lemma_freeze_one_star(ut, ft.len() + 3int);
    lemma_literals(st, ft, st, nt);
    let fz = freeze(ut);
    let mid = ft + seq![','] + hs + seq![','] + nt;
    assert(fz =~= seq!['R', '('] + mid + seq![')']);
    assert(fz != hash_mark());
    assert(inner_spec(fz) == Ok::<Seq<char>, Failure>(mid)) by {
        assert(fz.subrange(2, fz.len() - 1) =~= mid);
    }
    assert(plain(hs));
    lemma_plain_clean(hs);
    lemma_split_three(ft, hs, nt);
    let a = split_spec(mid);
    assert(a[1] == hash_mark());
    assert(seq!['R', '('] + a[0] + seq![',', '*', ','] + a[2] + seq![')'] =~= ut);
}

/// Unfreezing undoes freezing: every unary the grammar builds, its hole
/// frozen to `#` as it stands inside an `R` form, unfreezes back to itself.
pub proof fn law_unfreeze_undoes_freeze(u: UnaryTerm)
    ensures
        unfreeze_spec(freeze(unary_text(u))) == Ok::<Seq<char>, Failure>(unary_text(u)),
    decreases u,
{
    match u {
        UnaryTerm::Hole => {
            lemma_unfreeze_hole();
        },
        UnaryTerm::Wrap(x) => {
            let q = lemma_unary_facts(*x);
            law_unfreeze_undoes_freeze(*x);
            lemma_unfreeze_wrap(unary_text(*x), q);
        },
        UnaryTerm::FromBase(f, n) => {
            lemma_unary_facts(*f);
            lemma_nullary_facts(*n);
            lemma_unfreeze_from_base(freeze(unary_text(*f)), nullary_text(*n));
        },
        UnaryTerm::ForCount(f, n) => {
            lemma_unary_facts(*f);
            lemma_nullary_facts(*n);
            lemma_unfreeze_for_count(freeze(unary_text(*f)), nullary_text(*n));
        },
    }
}

} // verus!
