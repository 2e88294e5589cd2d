//! Textual forms: the character-level operations the evaluator is built on.
use vstd::prelude::*;

verus! {

/// Why an evaluation could not produce a value, as a mathematical value.
/// `Panic` marks the inputs on which the byte-slicing of a form would split a
/// multi-byte character; the public operations exclude them by `requires`.
pub ghost enum Failure {
    Overflow(Seq<char>),
    StepLimit(u64),
    Malformed(Seq<char>),
    Panic,
}

pub open spec fn is_ascii_char(c: char) -> bool {
    (c as u32) < 128
}

pub open spec fn all_ascii(s: Seq<char>) -> bool {
    forall|i: int| 0 <= i < s.len() ==> is_ascii_char(#[trigger] s[i])
}

/// "^(x)" -> "x", "R(a,b,c)" -> "a,b,c": the text between the opening
/// bracket at position 1 and the closing bracket at the end.
pub open spec fn inner_spec(s: Seq<char>) -> Result<Seq<char>, Failure> {
    if s.len() < 3 || s.last() != ')' {
        Err(Failure::Malformed(s))
    } else if !is_ascii_char(s[1]) {
        Err(Failure::Panic)
    } else {
        Ok(s.subrange(2, s.len() - 1))
    }
}

/// The pieces of `s` between its top-level commas (commas not enclosed in
/// brackets), scanning from position `i` with bracket depth `depth`; the piece
/// in progress starts at `start` and the finished pieces are `acc`.
pub open spec fn split_from(
    s: Seq<char>,
    i: int,
    depth: int,
    start: int,
    acc: Seq<Seq<char>>,
) -> Seq<Seq<char>>
    decreases s.len() - i,
{
    if i >= s.len() {
        acc.push(s.subrange(start, s.len() as int))
    } else if s[i] == '(' {
        split_from(s, i + 1, depth + 1, start, acc)
    } else if s[i] == ')' {
        split_from(s, i + 1, depth - 1, start, acc)
    } else if s[i] == ',' && depth == 0 {
        split_from(s, i + 1, depth, i + 1, acc.push(s.subrange(start, i)))
    } else {
        split_from(s, i + 1, depth, start, acc)
    }
}

pub open spec fn split_spec(s: Seq<char>) -> Seq<Seq<char>> {
    split_from(s, 0, 0, 0, Seq::empty())
}

pub open spec fn total_len(parts: Seq<Seq<char>>) -> int
    decreases parts.len(),
{
    if parts.len() == 0 {
        0
    } else {
        total_len(parts.drop_last()) + parts.last().len()
    }
}

proof fn lemma_total_len_push(parts: Seq<Seq<char>>, x: Seq<char>)
    ensures
        total_len(parts.push(x)) == total_len(parts) + x.len(),
{
    assert(parts.push(x).drop_last() =~= parts);
}

proof fn lemma_split_from(s: Seq<char>, i: int, depth: int, start: int, acc: Seq<Seq<char>>)
    requires
        0 <= start <= i <= s.len(),
        total_len(acc) + acc.len() == start,
        forall|k: int| 0 <= k < acc.len() ==> #[trigger] acc[k].len() <= s.len(),
    ensures
        split_from(s, i, depth, start, acc).len() >= acc.len() + 1,
        total_len(split_from(s, i, depth, start, acc)) + split_from(s, i, depth, start, acc).len()
            == s.len() + 1,
        forall|k: int|
            0 <= k < split_from(s, i, depth, start, acc).len() ==> #[trigger] split_from(
                s,
                i,
                depth,
                start,
                acc,
            )[k].len() <= s.len(),
    decreases s.len() - i,
{
    if i >= s.len() {
        lemma_total_len_push(acc, s.subrange(start, s.len() as int));
    } else if s[i] == '(' {
        lemma_split_from(s, i + 1, depth + 1, start, acc);
    } else if s[i] == ')' {
        lemma_split_from(s, i + 1, depth - 1, start, acc);
    } else if s[i] == ',' && depth == 0 {
        let piece = s.subrange(start, i);
        lemma_total_len_push(acc, piece);
        let acc2 = acc.push(piece);
        assert forall|k: int| 0 <= k < acc2.len() implies #[trigger] acc2[k].len() <= s.len() by {
            if k < acc.len() {
                assert(acc2[k] == acc[k]);
            }
        }
        lemma_split_from(s, i + 1, depth, i + 1, acc2);
    } else {
        lemma_split_from(s, i + 1, depth, start, acc);
    }
}

/// The pieces joined with a comma between each two.
pub open spec fn join_with_commas(parts: Seq<Seq<char>>) -> Seq<char>
    decreases parts.len(),
{
    if parts.len() == 0 {
        Seq::empty()
    } else if parts.len() == 1 {
        parts[0]
    } else {
        join_with_commas(parts.drop_last()) + seq![','] + parts.last()
    }
}

proof fn lemma_split_from_joins(s: Seq<char>, i: int, depth: int, start: int, acc: Seq<Seq<char>>)
    requires
        0 <= start <= i <= s.len(),
        acc.len() == 0 ==> start == 0,
        acc.len() > 0 ==> join_with_commas(acc) + seq![','] == s.subrange(0, start),
    ensures
        join_with_commas(split_from(s, i, depth, start, acc)) == s,
    decreases s.len() - i,
{
    if i >= s.len() {
        let last = s.subrange(start, s.len() as int);
        let r = acc.push(last);
        assert(r.drop_last() =~= acc);
        if acc.len() == 0 {
            assert(last =~= s);
        } else {
            assert(join_with_commas(r) == join_with_commas(acc) + seq![','] + last);
            assert(s.subrange(0, start) + last =~= s);
        }
    } else if s[i] == '(' {
        lemma_split_from_joins(s, i + 1, depth + 1, start, acc);
    } else if s[i] == ')' {
        lemma_split_from_joins(s, i + 1, depth - 1, start, acc);
    } else if s[i] == ',' && depth == 0 {
        let piece = s.subrange(start, i);
        let acc2 = acc.push(piece);
        assert(acc2.drop_last() =~= acc);
        if acc.len() == 0 {
            assert(join_with_commas(acc2) == piece);
        } else {
            assert(join_with_commas(acc2) == join_with_commas(acc) + seq![','] + piece);
            assert(s.subrange(0, start) + piece =~= s.subrange(0, i));
        }
        assert(s.subrange(0, i) + seq![','] =~= s.subrange(0, i + 1));
        lemma_split_from_joins(s, i + 1, depth, i + 1, acc2);
    } else {
        lemma_split_from_joins(s, i + 1, depth, start, acc);
    }
}

/// Splitting at the top-level commas loses nothing: the pieces joined with
/// commas give the text back.
pub proof fn law_split_joins_back(s: Seq<char>)
    ensures
        split_spec(s).len() >= 1,
        join_with_commas(split_spec(s)) == s,
{
    lemma_split_lengths(s);
    lemma_split_from_joins(s, 0, 0, 0, Seq::empty());
}

/// How many more `(` than `)` stand in the first `i` characters of `s`.
pub open spec fn depth_before(s: Seq<char>, i: int) -> int
    decreases i,
{
    if i <= 0 {
        0
    } else {
        depth_before(s, i - 1) + if s[i - 1] == '(' {
            1int
        } else if s[i - 1] == ')' {
            -1int
        } else {
            0int
        }
    }
}

/// Whether position `j` of `s` holds a top-level comma: a comma with as many
/// `(` as `)` before it.
pub open spec fn is_top_comma(s: Seq<char>, j: int) -> bool {
    0 <= j < s.len() && s[j] == ',' && depth_before(s, j) == 0
}

/// How many top-level commas stand in the first `i` characters of `s`.
pub open spec fn top_commas_before(s: Seq<char>, i: int) -> nat
    decreases i,
{
    if i <= 0 {
        0
    } else {
        top_commas_before(s, i - 1) + if is_top_comma(s, i - 1) {
            1nat
        } else {
            0nat
        }
    }
}

/// The position of the comma that follows piece `k` when `parts` are joined
/// with commas.
pub open spec fn separator_at(parts: Seq<Seq<char>>, k: int) -> int {
    total_len(parts.take(k + 1)) + k
}

proof fn lemma_split_from_commas(s: Seq<char>, i: int, depth: int, start: int, acc: Seq<Seq<char>>)
    requires
        0 <= start <= i <= s.len(),
        depth == depth_before(s, i),
        acc.len() == top_commas_before(s, i),
        total_len(acc) + acc.len() == start,
        forall|k: int| 0 <= k < acc.len() ==> is_top_comma(s, #[trigger] separator_at(acc, k)),
    ensures
        split_from(s, i, depth, start, acc).len() == top_commas_before(s, s.len() as int) + 1,
        forall|k: int|
            0 <= k < split_from(s, i, depth, start, acc).len() - 1 ==> is_top_comma(
                s,
                #[trigger] separator_at(split_from(s, i, depth, start, acc), k),
            ),
    decreases s.len() - i,
{
    if i >= s.len() {
        let r = acc.push(s.subrange(start, s.len() as int));
        assert forall|k: int| 0 <= k < r.len() - 1 implies is_top_comma(s, #[trigger] separator_at(r, k)) by {
            assert(r.take(k + 1) =~= acc.take(k + 1));
            assert(separator_at(r, k) == separator_at(acc, k));
        }
    } else {
        assert(depth_before(s, i + 1) == depth_before(s, i) + if s[i] == '(' {
            1int
        } else if s[i] == ')' {
            -1int
        } else {
            0int
        });
        assert(top_commas_before(s, i + 1) == top_commas_before(s, i) + if is_top_comma(s, i) {
            1nat
        } else {
            0nat
        });
        if s[i] == '(' {
            lemma_split_from_commas(s, i + 1, depth + 1, start, acc);
        } else if s[i] == ')' {
            lemma_split_from_commas(s, i + 1, depth - 1, start, acc);
        } else if s[i] == ',' && depth == 0 {
            let acc2 = acc.push(s.subrange(start, i));
            lemma_total_len_push(acc, s.subrange(start, i));
            assert forall|k: int| 0 <= k < acc2.len() implies is_top_comma(s, #[trigger] separator_at(acc2, k)) by {
                if k < acc.len() {
                    assert(acc2.take(k + 1) =~= acc.take(k + 1));
                    assert(separator_at(acc2, k) == separator_at(acc, k));
                } else {
                    assert(acc2.take(k + 1) =~= acc2);
                }
            }
            lemma_split_from_commas(s, i + 1, depth, i + 1, acc2);
        } else {
            lemma_split_from_commas(s, i + 1, depth, start, acc);
        }
    }
}

proof fn lemma_separators_increase(parts: Seq<Seq<char>>, j: int, k: int)
    requires
        0 <= j < k < parts.len(),
    ensures
        separator_at(parts, j) < separator_at(parts, k),
    decreases k - j,
{
    assert(parts.take(k + 1).drop_last() =~= parts.take(k));
    if j < k - 1 {
        lemma_separators_increase(parts, j, k - 1);
    }
}

/// Splitting happens exactly at the top-level commas: every piece but the
/// last is followed, in the text, by a top-level comma, the separators stand
/// at increasing positions, and there are as many of them as top-level
/// commas (so every top-level comma parts two pieces, and no other comma
/// does).
pub proof fn law_split_at_top_level_commas(s: Seq<char>)
    ensures
        split_spec(s).len() == top_commas_before(s, s.len() as int) + 1,
        forall|k: int|
            0 <= k < split_spec(s).len() - 1 ==> is_top_comma(s, #[trigger] separator_at(split_spec(s), k)),
        forall|j: int, k: int|
            0 <= j < k < split_spec(s).len() ==> #[trigger] separator_at(split_spec(s), j) < #[trigger] separator_at(
                split_spec(s),
                k,
            ),
{
    lemma_split_from_commas(s, 0, 0, 0, Seq::empty());
    assert forall|j: int, k: int| 0 <= j < k < split_spec(s).len() implies #[trigger] separator_at(
        split_spec(s),
        j,
    ) < #[trigger] separator_at(split_spec(s), k) by {
        lemma_separators_increase(split_spec(s), j, k);
    }
}

/// Every piece of a split is no longer than the text it came from, and the
/// pieces with their separating commas account for the whole text.
pub proof fn lemma_split_lengths(s: Seq<char>)
    ensures
        split_spec(s).len() >= 1,
        total_len(split_spec(s)) + split_spec(s).len() == s.len() + 1,
        forall|k: int| 0 <= k < split_spec(s).len() ==> #[trigger] split_spec(s)[k].len() <= s.len(),
{
    lemma_split_from(s, 0, 0, 0, Seq::empty());
}

proof fn lemma_split_from_ascii(s: Seq<char>, i: int, depth: int, start: int, acc: Seq<Seq<char>>)
    requires
        all_ascii(s),
        0 <= start <= i <= s.len(),
        forall|k: int| 0 <= k < acc.len() ==> all_ascii(#[trigger] acc[k]),
    ensures
        forall|k: int|
            0 <= k < split_from(s, i, depth, start, acc).len() ==> all_ascii(
                #[trigger] split_from(s, i, depth, start, acc)[k],
            ),
    decreases s.len() - i,
{
    if i >= s.len() {
        let last = s.subrange(start, s.len() as int);
        assert(all_ascii(last)) by {
            assert forall|j: int| 0 <= j < last.len() implies is_ascii_char(#[trigger] last[j]) by {
                assert(last[j] == s[start + j]);
            }
        }
        let acc2 = acc.push(last);
        assert(split_from(s, i, depth, start, acc) == acc2);
        assert forall|k: int| 0 <= k < acc2.len() implies all_ascii(#[trigger] acc2[k]) by {
            if k < acc.len() {
                assert(acc2[k] == acc[k]);
            }
        }
    } else if s[i] == '(' {
        lemma_split_from_ascii(s, i + 1, depth + 1, start, acc);
        assert(split_from(s, i, depth, start, acc) == split_from(s, i + 1, depth + 1, start, acc));
    } else if s[i] == ')' {
        lemma_split_from_ascii(s, i + 1, depth - 1, start, acc);
        assert(split_from(s, i, depth, start, acc) == split_from(s, i + 1, depth - 1, start, acc));
    } else if s[i] == ',' && depth == 0 {
        let piece = s.subrange(start, i);
        assert(all_ascii(piece)) by {
            assert forall|j: int| 0 <= j < piece.len() implies is_ascii_char(#[trigger] piece[j]) by {
                assert(piece[j] == s[start + j]);
            }
        }
        let acc2 = acc.push(piece);
        assert forall|k: int| 0 <= k < acc2.len() implies all_ascii(#[trigger] acc2[k]) by {
            if k < acc.len() {
                assert(acc2[k] == acc[k]);
            }
        }
        lemma_split_from_ascii(s, i + 1, depth, i + 1, acc2);
        assert(split_from(s, i, depth, start, acc) == split_from(s, i + 1, depth, i + 1, acc2));
    } else {
        lemma_split_from_ascii(s, i + 1, depth, start, acc);
        assert(split_from(s, i, depth, start, acc) == split_from(s, i + 1, depth, start, acc));
    }
}

/// The pieces of an ASCII text are ASCII.
pub proof fn lemma_split_ascii(s: Seq<char>)
    requires
        all_ascii(s),
    ensures
        forall|k: int| 0 <= k < split_spec(s).len() ==> all_ascii(#[trigger] split_spec(s)[k]),
{
    lemma_split_from_ascii(s, 0, 0, 0, Seq::empty());
}

/// The body of an ASCII text is ASCII, and taking it never splits a
/// character.
pub proof fn lemma_inner_ascii(s: Seq<char>)
    requires
        all_ascii(s),
    ensures
        inner_spec(s) != Err::<Seq<char>, Failure>(Failure::Panic),
        inner_spec(s) matches Ok(i) ==> all_ascii(i),
{
    if s.len() >= 3 && s.last() == ')' {
        assert(is_ascii_char(s[1]));
        let i = s.subrange(2, s.len() - 1);
        assert forall|j: int| 0 <= j < i.len() implies is_ascii_char(#[trigger] i[j]) by {
            assert(i[j] == s[j + 2]);
        }
    }
}

/// Unfreezing an ASCII text never splits a character and gives ASCII.
pub proof fn lemma_unfreeze_ascii(u: Seq<char>)
    requires
        all_ascii(u),
    ensures
        unfreeze_spec(u) != Err::<Seq<char>, Failure>(Failure::Panic),
        unfreeze_spec(u) matches Ok(f) ==> all_ascii(f),
    decreases u.len(),
{
    lemma_inner_ascii(u);
    if u == hash_mark() {
        assert(is_ascii_char('*'));
    } else if u.len() > 0 && u[0] == '^' {
        if let Ok(i) = inner_spec(u) {
            lemma_unfreeze_ascii(i);
            if let Ok(x) = unfreeze_spec(i) {
                let f = seq!['^', '('] + x + seq![')'];
                assert forall|j: int| 0 <= j < f.len() implies is_ascii_char(#[trigger] f[j]) by {
                    if 2 <= j < 2 + x.len() {
                        assert(f[j] == x[j - 2]);
                    }
                }
            }
        }
    } else if u.len() > 0 && u[0] == 'R' {
        if let Ok(i) = inner_spec(u) {
            let a = split_spec(i);
            lemma_split_ascii(i);
            if a.len() == 3 {
                assert(all_ascii(a[0]) && all_ascii(a[1]) && all_ascii(a[2]));
                if a[1] == hash_mark() {
                    let f = seq!['R', '('] + a[0] + seq![',', '*', ','] + a[2] + seq![')'];
                    assert forall|j: int| 0 <= j < f.len() implies is_ascii_char(#[trigger] f[j]) by {
                        if 2 <= j < 2 + a[0].len() {
                            assert(f[j] == a[0][j - 2]);
                        } else if 5 + a[0].len() <= j < 5 + a[0].len() + a[2].len() {
                            assert(f[j] == a[2][j - 5 - a[0].len()]);
                        }
                    }
                } else if a[2] == hash_mark() {
                    let f = seq!['R', '('] + a[0] + seq![','] + a[1] + seq![',', '*', ')'];
                    assert forall|j: int| 0 <= j < f.len() implies is_ascii_char(#[trigger] f[j]) by {
                        if 2 <= j < 2 + a[0].len() {
                            assert(f[j] == a[0][j - 2]);
                        } else if 3 + a[0].len() <= j < 3 + a[0].len() + a[1].len() {
                            assert(f[j] == a[1][j - 3 - a[0].len()]);
                        }
                    }
                }
            }
        }
    }
}

/// Unfreezing fails only on malformed text or a split character.
pub proof fn lemma_unfreeze_errors(u: Seq<char>)
    ensures
        unfreeze_spec(u) matches Err(e) ==> (e is Malformed || e is Panic),
    decreases u.len(),
{
    if u.len() > 0 && u[0] == '^' && u != hash_mark() {
        if let Ok(i) = inner_spec(u) {
            lemma_unfreeze_errors(i);
        }
    }
}

pub open spec fn hash_mark() -> Seq<char> {
    seq!['#']
}

pub open spec fn star_mark() -> Seq<char> {
    seq!['*']
}

/// A frozen unary (whose hole is written `#`) with its hole written `*`.
pub open spec fn unfreeze_spec(u: Seq<char>) -> Result<Seq<char>, Failure>
    decreases u.len(),
{
    if u == hash_mark() {
        Ok(star_mark())
    } else if u.len() > 0 && u[0] == '^' {
        match inner_spec(u) {
            Err(e) => Err(e),
            Ok(i) => match unfreeze_spec(i) {
                Err(e) => Err(e),
                Ok(x) => Ok(seq!['^', '('] + x + seq![')']),
            },
        }
    } else if !(u.len() > 0 && u[0] == 'R') {
        Err(Failure::Malformed(u))
    } else {
        match inner_spec(u) {
            Err(e) => Err(e),
            Ok(i) => {
                let a = split_spec(i);
                if a.len() != 3 {
                    Err(Failure::Malformed(u))
                } else if a[1] == hash_mark() {
                    Ok(seq!['R', '('] + a[0] + seq![',', '*', ','] + a[2] + seq![')'])
                } else if a[2] != hash_mark() {
                    Err(Failure::Malformed(u))
                } else {
                    Ok(seq!['R', '('] + a[0] + seq![','] + a[1] + seq![',', '*', ')'])
                }
            },
        }
    }
}

/// Unfreezing rewrites one character and keeps the length.
pub proof fn lemma_unfreeze_len(u: Seq<char>)
    ensures
        unfreeze_spec(u) is Ok ==> unfreeze_spec(u)->Ok_0.len() == u.len(),
    decreases u.len(),
{
    if u == hash_mark() {
    } else if u.len() > 0 && u[0] == '^' {
        if let Ok(i) = inner_spec(u) {
            lemma_unfreeze_len(i);
        }
    } else if u.len() > 0 && u[0] == 'R' {
        if let Ok(i) = inner_spec(u) {
            let a = split_spec(i);
            lemma_split_lengths(i);
            if a.len() == 3 {
                assert(a =~= seq![a[0], a[1], a[2]]);
                assert(a.drop_last() =~= seq![a[0], a[1]]);
                assert(a.drop_last().drop_last() =~= seq![a[0]]);
                assert(a.drop_last().drop_last().drop_last() =~= Seq::<Seq<char>>::empty());
                let b1 = a.drop_last().drop_last();
                assert(total_len(b1.drop_last()) == 0);
                assert(b1.last() == a[0]);
                assert(total_len(b1) == a[0].len());
                assert(a.drop_last().last() == a[1]);
                assert(total_len(a.drop_last()) == a[0].len() + a[1].len());
                assert(total_len(a) == a[0].len() + a[1].len() + a[2].len());
                assert(i.len() + 3 == u.len());
            }
        }
    }
}

/// The characters of a text, in order.
pub fn chars_of(s: &str) -> (v: Vec<char>)
    ensures
        v@ == s@,
{
    let mut v: Vec<char> = Vec::new();
    for c in iter: s.chars()
        invariant
            v@ == iter.seq().take(iter.index() as int),
    {
        v.push(c);
    }
    v
}

} // verus!
