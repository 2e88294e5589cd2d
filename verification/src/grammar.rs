//! Building forms from shorter ones: the grammar the exploration follows.
//!   N: "0" | ^(N) | R(U#, N, N)
//!   U: "^(*)" | ^(U) | R(U#, N, *) | R(U#, *, N)
//! where U# is a unary with its first `*` frozen to `#`.
use vstd::prelude::*;
use vstd::string::*;
use crate::form::{all_ascii, chars_of};

verus! {

/// `^(x)`.
pub open spec fn wrap(x: Seq<char>) -> Seq<char> {
    "^("@ + x + ")"@
}

/// `R(a,b,c)`.
pub open spec fn rform(a: Seq<char>, b: Seq<char>, c: Seq<char>) -> Seq<char> {
    "R("@ + a + ","@ + b + ","@ + c + ")"@
}

/// The position of the first `*` in `s` at or after `i`.
pub open spec fn star_from(s: Seq<char>, i: int) -> Option<int>
    decreases s.len() - i,
{
    if i >= s.len() {
        None
    } else if s[i] == '*' {
        Some(i)
    } else {
        star_from(s, i + 1)
    }
}

/// `s` with its first `*` replaced by `w` (`str::replacen(s, '*', w, 1)`).
pub open spec fn replace_first_star(s: Seq<char>, w: Seq<char>) -> Seq<char> {
    match star_from(s, 0) {
        Some(i) => s.take(i) + w + s.skip(i + 1),
        None => s,
    }
}

/// A unary with its hole frozen, as it stands inside an `R` form.
pub open spec fn freeze(u: Seq<char>) -> Seq<char> {
    replace_first_star(u, "#"@)
}

/// A unary applied to a nullary: the nullary in place of its hole.
pub open spec fn apply_unary(u: Seq<char>, n: Seq<char>) -> Seq<char> {
    replace_first_star(u, n)
}

pub proof fn lemma_star_from(s: Seq<char>, i: int)
    requires
        0 <= i <= s.len(),
    ensures
        star_from(s, i) matches Some(p) ==> i <= p < s.len() && s[p] == '*' && forall|q: int|
            i <= q < p ==> s[q] != '*',
        star_from(s, i) is None ==> forall|q: int| i <= q < s.len() ==> s[q] != '*',
    decreases s.len() - i,
{
    if i < s.len() && s[i] != '*' {
        lemma_star_from(s, i + 1);
    }
}

/// `^(x)` as a text.
pub fn wrap_text(x: &str) -> (r: String)
    ensures
        r@ == wrap(x@),
{
    let mut r = "^(".to_string();
    r.append(x);
    r.append(")");
    proof {
        reveal_strlit("^(");
        reveal_strlit(")");
    }
    r
}

/// `R(a,b,c)` as a text.
pub fn rform_text(a: &str, b: &str, c: &str) -> (r: String)
    ensures
        r@ == rform(a@, b@, c@),
{
    let mut r = "R(".to_string();
    r.append(a);
    r.append(",");
    r.append(b);
    r.append(",");
    r.append(c);
    r.append(")");
    proof {
        reveal_strlit("R(");
        reveal_strlit(",");
        reveal_strlit(")");
    }
    r
}

/// `s` with its first `*` replaced by `w`.
pub fn replace_first_star_text(s: &str, w: &str) -> (r: String)
    ensures
        r@ == replace_first_star(s@, w@),
{
    let v = chars_of(s);
    let mut i: usize = 0;
    while i < v.len() && v[i] != '*'
        invariant
            v@ == s@,
            0 <= i <= v.len(),
            star_from(s@, 0) == star_from(s@, i as int),
        decreases v.len() - i,
    {
        i = i + 1;
    }
    if i == v.len() {
        return s.to_string();
    }
    let mut r = crate::text::text_from_chars(&v.as_slice()[0..i]);
    r.append(w);
    let rest = crate::text::text_from_chars(&v.as_slice()[i + 1..v.len()]);
    r.append(rest.as_str());
    assert(r@ =~= s@.take(i as int) + w@ + s@.skip(i + 1));
    r
}

/// The unary with its hole frozen to `#`.
pub fn freeze_text(u: &str) -> (r: String)
    ensures
        r@ == freeze(u@),
{
    proof {
        reveal_strlit("#");
    }
    replace_first_star_text(u, "#")
}

/// The literal forms are ASCII.
pub proof fn lemma_literals_ascii()
    ensures
        all_ascii("*"@),
        all_ascii("0"@),
        all_ascii("^(*)"@),
{
    reveal_strlit("*");
    reveal_strlit("0");
    reveal_strlit("^(*)");
}

/// Forms built from ASCII pieces are ASCII.
pub proof fn lemma_ascii_forms(x: Seq<char>, y: Seq<char>, z: Seq<char>)
    requires
        all_ascii(x),
        all_ascii(y),
        all_ascii(z),
    ensures
        all_ascii(wrap(x)),
        all_ascii(rform(x, y, z)),
        all_ascii(replace_first_star(x, y)),
        all_ascii(freeze(x)),
        all_ascii("*"@),
        all_ascii("0"@),
        all_ascii("^(*)"@),
{
    reveal_strlit("^(");
    reveal_strlit(")");
    reveal_strlit("R(");
    reveal_strlit(",");
    reveal_strlit("#");
    reveal_strlit("*");
    reveal_strlit("0");
    reveal_strlit("^(*)");
    let w = wrap(x);
    assert forall|i: int| 0 <= i < w.len() implies crate::form::is_ascii_char(#[trigger] w[i]) by {
        if i >= 2 && i < 2 + x.len() {
            assert(w[i] == x[i - 2]);
        }
    }
    let r = rform(x, y, z);
    assert forall|i: int| 0 <= i < r.len() implies crate::form::is_ascii_char(#[trigger] r[i]) by {
        let a = 2 + x.len();
        let b = a + 1 + y.len();
        if 2 <= i < a {
            assert(r[i] == x[i - 2]);
        } else if a + 1 <= i < b {
            assert(r[i] == y[i - a - 1]);
        } else if b + 1 <= i < b + 1 + z.len() {
            assert(r[i] == z[i - b - 1]);
        }
    }
    lemma_star_from(x, 0);
    match star_from(x, 0) {
        Some(p) => {
            let q = x.take(p) + y + x.skip(p + 1);
            assert forall|i: int| 0 <= i < q.len() implies crate::form::is_ascii_char(#[trigger] q[i]) by {
                if i < p {
                    assert(q[i] == x[i]);
                } else if i < p + y.len() {
                    assert(q[i] == y[i - p]);
                } else {
                    assert(q[i] == x[i - y.len() + 1]);
                }
            }
            let f = x.take(p) + "#"@ + x.skip(p + 1);
            assert forall|i: int| 0 <= i < f.len() implies crate::form::is_ascii_char(#[trigger] f[i]) by {
                if i < p {
                    assert(f[i] == x[i]);
                } else if i == p {
                    assert(f[i] == '#');
                } else {
                    assert(f[i] == x[i]);
                }
            }
        },
        None => {},
    }
}

/// The lengths of built forms: `^(x)` adds three characters, `R(a,b,c)`
/// five, freezing a hole keeps the length, and applying a unary replaces its
/// hole by the nullary.
pub proof fn lemma_form_lengths(x: Seq<char>, y: Seq<char>, z: Seq<char>)
    ensures
        wrap(x).len() == x.len() + 3,
        rform(x, y, z).len() == x.len() + y.len() + z.len() + 5,
        freeze(x).len() == x.len(),
        "*"@.len() == 1,
        "0"@.len() == 1,
        "^(*)"@.len() == 4,
{
    reveal_strlit("^(");
    reveal_strlit(")");
    reveal_strlit("R(");
    reveal_strlit(",");
    reveal_strlit("#");
    reveal_strlit("*");
    reveal_strlit("0");
    reveal_strlit("^(*)");
    lemma_star_from(x, 0);
}

} // verus!
