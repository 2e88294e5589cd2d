//! Orders on texts, decimal numerals, and line splitting.
use vstd::prelude::*;
use vstd::string::*;

verus! {

/// The length in bytes of a text's UTF-8 encoding (what `str::len` counts).
pub open spec fn byte_len(s: Seq<char>) -> usize {
    vstd::utf8::encode_utf8(s).len() as usize
}

/// Lexicographic order on texts by code point (the order of `str`).
pub open spec fn lex_le(a: Seq<char>, b: Seq<char>) -> bool
    decreases a.len(),
{
    if a.len() == 0 {
        true
    } else if b.len() == 0 {
        false
    } else if (a[0] as u32) != (b[0] as u32) {
        (a[0] as u32) < (b[0] as u32)
    } else {
        lex_le(a.drop_first(), b.drop_first())
    }
}

/// Shorter first (in bytes), ties broken lexicographically: the order of
/// `(text.len(), text)`.
pub open spec fn shortlex_le(a: Seq<char>, b: Seq<char>) -> bool {
    byte_len(a) < byte_len(b) || (byte_len(a) == byte_len(b) && lex_le(a, b))
}

/// Two characters with the same code point are the same character.
proof fn lemma_same_code_point(x: char, y: char)
    requires
        (x as u32) == (y as u32),
    ensures
        x == y,
{
    vstd::utf8::char_u32_cast(x, x as u32);
    vstd::utf8::char_u32_cast(y, y as u32);
}

pub proof fn lemma_lex_total(a: Seq<char>, b: Seq<char>)
    ensures
        lex_le(a, b) || lex_le(b, a),
    decreases a.len(),
{
    if a.len() > 0 && b.len() > 0 && (a[0] as u32) == (b[0] as u32) {
        lemma_lex_total(a.drop_first(), b.drop_first());
    }
}

pub proof fn lemma_lex_antisymmetric(a: Seq<char>, b: Seq<char>)
    requires
        lex_le(a, b),
        lex_le(b, a),
    ensures
        a == b,
    decreases a.len(),
{
    if a.len() == 0 {
        assert(b.len() == 0);
        assert(a =~= b);
    } else {
        assert(b.len() > 0);
        lemma_same_code_point(a[0], b[0]);
        lemma_lex_antisymmetric(a.drop_first(), b.drop_first());
        assert(a =~= seq![a[0]] + a.drop_first());
        assert(b =~= seq![b[0]] + b.drop_first());
    }
}

pub proof fn lemma_lex_transitive(a: Seq<char>, b: Seq<char>, c: Seq<char>)
    requires
        lex_le(a, b),
        lex_le(b, c),
    ensures
        lex_le(a, c),
    decreases a.len(),
{
    if a.len() > 0 && b.len() > 0 && c.len() > 0 && (a[0] as u32) == (b[0] as u32) && (b[0]
        as u32) == (c[0] as u32) {
        lemma_lex_transitive(a.drop_first(), b.drop_first(), c.drop_first());
    }
}

pub proof fn lemma_shortlex_total(a: Seq<char>, b: Seq<char>)
    ensures
        shortlex_le(a, b) || shortlex_le(b, a),
{
    lemma_lex_total(a, b);
}

pub proof fn lemma_shortlex_antisymmetric(a: Seq<char>, b: Seq<char>)
    requires
        shortlex_le(a, b),
        shortlex_le(b, a),
    ensures
        a == b,
{
    lemma_lex_antisymmetric(a, b);
}

pub proof fn lemma_shortlex_transitive(a: Seq<char>, b: Seq<char>, c: Seq<char>)
    requires
        shortlex_le(a, b),
        shortlex_le(b, c),
    ensures
        shortlex_le(a, c),
{
    if byte_len(a) == byte_len(b) && byte_len(b) == byte_len(c) {
        lemma_lex_transitive(a, b, c);
    }
}

/// Whether `a` comes no later than `b` lexicographically.
pub fn text_lex_le(a: &str, b: &str) -> (r: bool)
    ensures
        r == lex_le(a@, b@),
{
    let x = crate::form::chars_of(a);
    let y = crate::form::chars_of(b);
    let mut i: usize = 0;
    assert(a@.skip(0) =~= a@);
    assert(b@.skip(0) =~= b@);
    while i < x.len() && i < y.len() && (x[i] as u32) == (y[i] as u32)
        invariant
            x@ == a@,
            y@ == b@,
            0 <= i <= x.len(),
            i <= y.len(),
            lex_le(a@, b@) == lex_le(a@.skip(i as int), b@.skip(i as int)),
        decreases x.len() - i,
    {
        assert(a@.skip(i as int)[0] == x@[i as int]);
        assert(a@.skip(i as int).drop_first() =~= a@.skip(i + 1));
        assert(b@.skip(i as int).drop_first() =~= b@.skip(i + 1));
        i = i + 1;
    }
    if i == x.len() {
        true
    } else if i == y.len() {
        false
    } else {
        (x[i] as u32) < (y[i] as u32)
    }
}

/// Whether `a` comes no later than `b` shortest-first.
pub fn text_shortlex_le(a: &str, b: &str) -> (r: bool)
    ensures
        r == shortlex_le(a@, b@),
{
    let la = a.len();
    let lb = b.len();
    la < lb || (la == lb && text_lex_le(a, b))
}

/// The decimal digit for `d` (taken below ten).
pub open spec fn digit_char(d: int) -> char {
    if d == 0 {
        '0'
    } else if d == 1 {
        '1'
    } else if d == 2 {
        '2'
    } else if d == 3 {
        '3'
    } else if d == 4 {
        '4'
    } else if d == 5 {
        '5'
    } else if d == 6 {
        '6'
    } else if d == 7 {
        '7'
    } else if d == 8 {
        '8'
    } else {
        '9'
    }
}

/// The decimal numeral of `n`, without leading zeros (how `{}` prints it).
pub open spec fn decimal(n: nat) -> Seq<char>
    decreases n,
{
    if n < 10 {
        seq![digit_char(n as int)]
    } else {
        decimal(n / 10).push(digit_char((n % 10) as int))
    }
}

/// The one-character text of a decimal digit.
fn digit_text(d: u64) -> (r: &'static str)
    requires
        d < 10,
    ensures
        r@ == seq![digit_char(d as int)],
{
    proof {
        reveal_strlit("0");
        reveal_strlit("1");
        reveal_strlit("2");
        reveal_strlit("3");
        reveal_strlit("4");
        reveal_strlit("5");
        reveal_strlit("6");
        reveal_strlit("7");
        reveal_strlit("8");
        reveal_strlit("9");
    }
    if d == 0 {
        "0"
    } else if d == 1 {
        "1"
    } else if d == 2 {
        "2"
    } else if d == 3 {
        "3"
    } else if d == 4 {
        "4"
    } else if d == 5 {
        "5"
    } else if d == 6 {
        "6"
    } else if d == 7 {
        "7"
    } else if d == 8 {
        "8"
    } else {
        "9"
    }
}

/// Appends the decimal numeral of `n` to `out`.
pub fn push_decimal(out: &mut String, n: u64)
    ensures
        final(out)@ == old(out)@ + decimal(n as nat),
    decreases n,
{
    if n >= 10 {
        push_decimal(out, n / 10);
    }
    out.append(digit_text(n % 10));
    proof {
        if n >= 10 {
            assert(old(out)@ + decimal(n as nat) =~= old(out)@ + decimal((n / 10) as nat) + seq![
                digit_char((n % 10) as int),
            ]);
        }
    }
}

/// Strict lexicographic order on byte strings (the order of `[u8]`, and of
/// `str` and `String`, which compare their UTF-8 bytes).
pub open spec fn bytes_lt(a: Seq<u8>, b: Seq<u8>) -> bool
    decreases a.len(),
{
    if b.len() == 0 {
        false
    } else if a.len() == 0 {
        true
    } else if a[0] != b[0] {
        a[0] < b[0]
    } else {
        bytes_lt(a.drop_first(), b.drop_first())
    }
}

/// The UTF-8 bytes of a text.
pub open spec fn utf8(s: Seq<char>) -> Seq<u8> {
    vstd::utf8::encode_utf8(s)
}

pub proof fn lemma_bytes_lt_irreflexive(a: Seq<u8>)
    ensures
        !bytes_lt(a, a),
    decreases a.len(),
{
    if a.len() > 0 {
        lemma_bytes_lt_irreflexive(a.drop_first());
    }
}

pub proof fn lemma_bytes_lt_transitive(a: Seq<u8>, b: Seq<u8>, c: Seq<u8>)
    requires
        bytes_lt(a, b),
        bytes_lt(b, c),
    ensures
        bytes_lt(a, c),
    decreases a.len(),
{
    if a.len() > 0 && b.len() > 0 && c.len() > 0 && a[0] == b[0] && b[0] == c[0] {
        lemma_bytes_lt_transitive(a.drop_first(), b.drop_first(), c.drop_first());
    }
}

pub proof fn lemma_bytes_lt_total(a: Seq<u8>, b: Seq<u8>)
    ensures
        bytes_lt(a, b) || bytes_lt(b, a) || a == b,
    decreases a.len(),
{
    if a.len() == 0 && b.len() == 0 {
        assert(a =~= b);
    } else if a.len() > 0 && b.len() > 0 && a[0] == b[0] {
        lemma_bytes_lt_total(a.drop_first(), b.drop_first());
        if a.drop_first() == b.drop_first() {
            assert(a =~= seq![a[0]] + a.drop_first());
            assert(b =~= seq![b[0]] + b.drop_first());
        }
    }
}

pub proof fn lemma_bytes_lt_asymmetric(a: Seq<u8>, b: Seq<u8>)
    requires
        bytes_lt(a, b),
    ensures
        !bytes_lt(b, a),
        a != b,
{
    lemma_bytes_lt_irreflexive(a);
    if bytes_lt(b, a) {
        lemma_bytes_lt_transitive(a, b, a);
    }
}

/// How two byte strings are ordered.
#[derive(Debug, PartialEq, Eq, Structural)]
pub enum KeyOrder {
    Before,
    Same,
    After,
}

/// Compares two byte strings lexicographically.
pub fn compare_bytes(a: &[u8], b: &[u8]) -> (r: KeyOrder)
    ensures
        r is Before <==> bytes_lt(a@, b@),
        r is Same <==> a@ == b@,
        r is After <==> bytes_lt(b@, a@),
{
    let mut i: usize = 0;
    assert(a@.skip(0) =~= a@);
    assert(b@.skip(0) =~= b@);
    while i < a.len() && i < b.len() && a[i] == b[i]
        invariant
            0 <= i <= a.len(),
            i <= b.len(),
            a@.subrange(0, i as int) == b@.subrange(0, i as int),
            bytes_lt(a@, b@) == bytes_lt(a@.skip(i as int), b@.skip(i as int)),
            bytes_lt(b@, a@) == bytes_lt(b@.skip(i as int), a@.skip(i as int)),
        decreases a.len() - i,
    {
        assert(a@.skip(i as int).drop_first() =~= a@.skip(i + 1));
        assert(b@.skip(i as int).drop_first() =~= b@.skip(i + 1));
        assert(a@.subrange(0, i + 1) =~= a@.subrange(0, i as int).push(a@[i as int]));
        assert(b@.subrange(0, i + 1) =~= b@.subrange(0, i as int).push(b@[i as int]));
        i = i + 1;
    }
    proof {
        lemma_bytes_lt_irreflexive(a@);
    }
    if i == a.len() && i == b.len() {
        assert(a@ =~= a@.subrange(0, i as int));
        assert(b@ =~= b@.subrange(0, i as int));
        KeyOrder::Same
    } else if i == a.len() {
        assert(a@.subrange(0, i as int) =~= a@);
        assert(a@ != b@) by {
            if a@ == b@ {
                assert(a@.len() == b@.len());
            }
        }
        KeyOrder::Before
    } else if i == b.len() {
        assert(a@ != b@) by {
            if a@ == b@ {
                assert(a@.len() == b@.len());
            }
        }
        KeyOrder::After
    } else if a[i] < b[i] {
        assert(a@ != b@) by {
            if a@ == b@ {
                assert(a@[i as int] == b@[i as int]);
            }
        }
        KeyOrder::Before
    } else {
        assert(a@ != b@) by {
            if a@ == b@ {
                assert(a@[i as int] == b@[i as int]);
            }
        }
        KeyOrder::After
    }
}

/// The entries of a map from texts, each keyed by the UTF-8 bytes of its text.
pub open spec fn keyed_by_bytes(m: Map<Seq<char>, u64>) -> Map<Seq<u8>, u64> {
    Map::new(
        |b: Seq<u8>| m.contains_key(vstd::utf8::decode_utf8(b)) && utf8(vstd::utf8::decode_utf8(b)) == b,
        |b: Seq<u8>| m[vstd::utf8::decode_utf8(b)],
    )
}

/// The UTF-8 bytes of each text of a set.
pub open spec fn bytes_of_texts(s: Set<Seq<char>>) -> Set<Seq<u8>> {
    Set::new(
        |b: Seq<u8>| s.contains(vstd::utf8::decode_utf8(b)) && utf8(vstd::utf8::decode_utf8(b)) == b,
    )
}

/// A text has no UTF-8 bytes exactly when it has no characters.
pub proof fn lemma_utf8_empty(s: Seq<char>)
    ensures
        (utf8(s).len() == 0) == (s.len() == 0),
{
    if s.len() > 0 {
        let c = s[0] as u32;
        assert(vstd::utf8::encode_scalar(c).len() >= 1);
        assert(utf8(s) == vstd::utf8::encode_scalar(c) + utf8(s.drop_first()));
    }
}

/// Distinct texts have distinct UTF-8 bytes.
pub proof fn lemma_utf8_injective(a: Seq<char>, b: Seq<char>)
    ensures
        utf8(a) == utf8(b) ==> a == b,
{
    vstd::utf8::encode_utf8_decode_utf8(a);
    vstd::utf8::encode_utf8_decode_utf8(b);
}

/// A text's bytes are a key of the byte-keyed map exactly when the text is a
/// key of the map, with the same value.
pub proof fn lemma_keyed_by_bytes(m: Map<Seq<char>, u64>, t: Seq<char>)
    ensures
        keyed_by_bytes(m).contains_key(utf8(t)) == m.contains_key(t),
        m.contains_key(t) ==> keyed_by_bytes(m)[utf8(t)] == m[t],
        bytes_of_texts(m.dom()).contains(utf8(t)) == m.contains_key(t),
{
    vstd::utf8::encode_utf8_decode_utf8(t);
}

/// A text's bytes belong to the byte set exactly when the text belongs to
/// the set.
pub proof fn lemma_bytes_of_texts(s: Set<Seq<char>>, t: Seq<char>)
    ensures
        bytes_of_texts(s).contains(utf8(t)) == s.contains(t),
{
    vstd::utf8::encode_utf8_decode_utf8(t);
}

/// `String::from_utf8`: the text whose UTF-8 bytes these are, if they are
/// valid UTF-8.
#[verifier::external_body]
pub(crate) fn text_from_utf8(bytes: Vec<u8>) -> (r: Result<String, String>)
    ensures
        r is Ok <==> vstd::utf8::valid_utf8(bytes@),
        r matches Ok(t) ==> utf8(t@) == bytes@,
{
    String::from_utf8(bytes).map_err(|e| e.to_string())
}

/// The pieces of a text between its newlines (one more piece than there are
/// newlines).
pub open spec fn newline_pieces(s: Seq<char>) -> Seq<Seq<char>>
    decreases s.len(),
{
    if s.len() == 0 {
        seq![Seq::empty()]
    } else if s.last() == '\n' {
        newline_pieces(s.drop_last()).push(Seq::empty())
    } else {
        let p = newline_pieces(s.drop_last());
        p.update(p.len() - 1, p.last().push(s.last()))
    }
}

/// A line ended by a newline loses one carriage return before it.
pub open spec fn without_cr(line: Seq<char>) -> Seq<char> {
    if line.len() > 0 && line.last() == '\r' {
        line.drop_last()
    } else {
        line
    }
}

/// The lines of a text as `str::lines` gives them: split at each newline, a
/// final newline ends the last line rather than starting an empty one, and a
/// line ended by a newline loses one carriage return before it.
pub open spec fn lines_spec(s: Seq<char>) -> Seq<Seq<char>> {
    let p = newline_pieces(s);
    if s.len() == 0 {
        Seq::empty()
    } else if s.last() == '\n' {
        p.drop_last().map_values(|l: Seq<char>| without_cr(l))
    } else {
        p.drop_last().map_values(|l: Seq<char>| without_cr(l)).push(p.last())
    }
}

/// Whether `c` is white space as `char::is_whitespace` counts it (the
/// Unicode White_Space property).
pub open spec fn is_white(c: char) -> bool {
    let u = c as u32;
    (0x9 <= u <= 0xd) || u == 0x20 || u == 0x85 || u == 0xa0 || u == 0x1680 || (0x2000 <= u
        <= 0x200a) || u == 0x2028 || u == 0x2029 || u == 0x202f || u == 0x205f || u == 0x3000
}

/// The text without white space at its start.
pub open spec fn trim_start_spec(s: Seq<char>) -> Seq<char>
    decreases s.len(),
{
    if s.len() > 0 && is_white(s[0]) {
        trim_start_spec(s.drop_first())
    } else {
        s
    }
}

/// The text without white space at its end.
pub open spec fn trim_end_spec(s: Seq<char>) -> Seq<char>
    decreases s.len(),
{
    if s.len() > 0 && is_white(s.last()) {
        trim_end_spec(s.drop_last())
    } else {
        s
    }
}

/// The text without white space at either end (`str::trim`).
pub open spec fn trim_spec(s: Seq<char>) -> Seq<char> {
    trim_end_spec(trim_start_spec(s))
}

fn is_white_char(c: char) -> (r: bool)
    ensures
        r == is_white(c),
{
    let u = c as u32;
    (0x9 <= u && u <= 0xd) || u == 0x20 || u == 0x85 || u == 0xa0 || u == 0x1680 || (0x2000 <= u
        && u <= 0x200a) || u == 0x2028 || u == 0x2029 || u == 0x202f || u == 0x205f || u == 0x3000
}

/// `String::from_iter` over characters: the text made of them.
#[verifier::external_body]
pub(crate) fn text_from_chars(chars: &[char]) -> (r: String)
    ensures
        r@ == chars@,
{
    chars.iter().collect()
}

/// The text of `v[start..end]` trimmed as `trim_spec` trims it.
pub fn trimmed_piece(v: &Vec<char>, start: usize, end: usize) -> (r: String)
    requires
        start <= end <= v.len(),
    ensures
        r@ == trim_spec(v@.subrange(start as int, end as int)),
{
    let mut a = start;
    while a < end && is_white_char(v[a])
        invariant
            start <= a <= end <= v.len(),
            trim_start_spec(v@.subrange(start as int, end as int)) == trim_start_spec(
                v@.subrange(a as int, end as int),
            ),
        decreases end - a,
    {
        assert(v@.subrange(a as int, end as int).drop_first() =~= v@.subrange(a + 1, end as int));
        a = a + 1;
    }
    assert(trim_start_spec(v@.subrange(a as int, end as int)) == v@.subrange(a as int, end as int));
    let mut b = end;
    while b > a && is_white_char(v[b - 1])
        invariant
            start <= a <= b <= end <= v.len(),
            trim_end_spec(v@.subrange(a as int, end as int)) == trim_end_spec(
                v@.subrange(a as int, b as int),
            ),
        decreases b - a,
    {
        assert(v@.subrange(a as int, b as int).drop_last() =~= v@.subrange(a as int, b - 1));
        b = b - 1;
    }
    let piece = text_from_chars(&v.as_slice()[a..b]);
    assert(piece@ =~= v@.subrange(a as int, b as int));
    piece
}

pub open spec fn span_texts(v: Seq<char>, spans: Seq<(usize, usize)>) -> Seq<Seq<char>> {
    spans.map_values(|p: (usize, usize)| v.subrange(p.0 as int, p.1 as int))
}

pub open spec fn spans_within(spans: Seq<(usize, usize)>, n: int) -> bool {
    forall|k: int| 0 <= k < spans.len() ==> #[trigger] spans[k].0 <= spans[k].1 <= n
}

/// Where the lines of `v` start and end (as `lines_spec` takes them).
pub fn line_spans(v: &Vec<char>) -> (r: Vec<(usize, usize)>)
    ensures
        spans_within(r@, v@.len() as int),
        span_texts(v@, r@) == lines_spec(v@),
{
    let mut pieces: Vec<(usize, usize)> = Vec::new();
    let mut start: usize = 0;
    let mut i: usize = 0;
    assert(v@.take(0) =~= Seq::<char>::empty());
    assert(span_texts(v@, pieces@).push(v@.subrange(0, 0)) =~= newline_pieces(v@.take(0)));
    while i < v.len()
        invariant
            0 <= start <= i <= v.len(),
            spans_within(pieces@, i as int),
            forall|k: int| 0 <= k < pieces.len() ==> #[trigger] pieces@[k].1 < v.len() && v@[pieces@[k].1 as int] == '\n',
            span_texts(v@, pieces@).push(v@.subrange(start as int, i as int)) == newline_pieces(v@.take(i as int)),
        decreases v.len() - i,
    {
        let ghost before = span_texts(v@, pieces@).push(v@.subrange(start as int, i as int));
        assert(v@.take(i + 1).drop_last() =~= v@.take(i as int));
        assert(v@.take(i + 1).last() == v@[i as int]);
        if v[i] == '\n' {
            let ghost old_pieces = pieces@;
            let ghost old_start = start;
            pieces.push((start, i));
            start = i + 1;
            assert(span_texts(v@, pieces@) =~= span_texts(v@, old_pieces).push(
                v@.subrange(old_start as int, i as int),
            ));
            assert(v@.subrange(start as int, i + 1) =~= Seq::<char>::empty());
            assert(span_texts(v@, pieces@).push(v@.subrange(start as int, i + 1)) =~= before.push(
                Seq::empty(),
            ));
        } else {
            assert(v@.subrange(start as int, i + 1) =~= v@.subrange(start as int, i as int).push(v@[i as int]));
            assert(span_texts(v@, pieces@).push(v@.subrange(start as int, i + 1)) =~= before.update(
                before.len() - 1,
                before.last().push(v@[i as int]),
            ));
        }
        i = i + 1;
    }
    assert(v@.take(v.len() as int) =~= v@);
    let ghost all = newline_pieces(v@);
    let ghost done = span_texts(v@, pieces@);
    assert(all.drop_last() =~= done);
    let mut r: Vec<(usize, usize)> = Vec::new();
    let mut k: usize = 0;
    while k < pieces.len()
        invariant
            0 <= k <= pieces.len(),
            r.len() == k,
            spans_within(pieces@, v.len() as int),
            spans_within(r@, v.len() as int),
            done == span_texts(v@, pieces@),
            span_texts(v@, r@) =~= done.take(k as int).map_values(|l: Seq<char>| without_cr(l)),
        decreases pieces.len() - k,
    {
        let (a, b) = pieces[k];
        let ghost piece = v@.subrange(a as int, b as int);
        assert(done[k as int] == piece);
        let ghost before = span_texts(v@, r@);
        if b > a && v[b - 1] == '\r' {
            r.push((a, b - 1));
            assert(v@.subrange(a as int, b - 1) =~= without_cr(piece));
        } else {
            r.push((a, b));
        }
        assert(span_texts(v@, r@) =~= before.push(without_cr(piece)));
        assert(done.take(k + 1).map_values(|l: Seq<char>| without_cr(l)) =~= done.take(
            k as int,
        ).map_values(|l: Seq<char>| without_cr(l)).push(without_cr(piece)));
        k = k + 1;
    }
    assert(done.take(pieces.len() as int) =~= done);
    if v.len() > 0 && v[v.len() - 1] != '\n' {
        let ghost before = span_texts(v@, r@);
        r.push((start, v.len()));
        assert(span_texts(v@, r@) =~= before.push(all.last()));
    }
    proof {
        if v.len() == 0 {
            assert(pieces.len() == 0);
            assert(span_texts(v@, r@) =~= lines_spec(v@));
        } else if v@.last() == '\n' {
            assert(span_texts(v@, r@) =~= lines_spec(v@));
        } else {
            assert(span_texts(v@, r@) =~= lines_spec(v@));
        }
    }
    r
}

/// The lines of a text (`str::lines`).
pub fn lines_of(s: &str) -> (r: Vec<String>)
    ensures
        r@.map_values(|l: String| l@) == lines_spec(s@),
{
    let v = crate::form::chars_of(s);
    let spans = line_spans(&v);
    let mut r: Vec<String> = Vec::new();
    let mut k: usize = 0;
    while k < spans.len()
        invariant
            v@ == s@,
            spans_within(spans@, v.len() as int),
            span_texts(v@, spans@) == lines_spec(s@),
            0 <= k <= spans.len(),
            r.len() == k,
            forall|t: int| 0 <= t < k ==> #[trigger] r@[t]@ == lines_spec(s@)[t],
        decreases spans.len() - k,
    {
        let (a, b) = spans[k];
        assert(span_texts(v@, spans@)[k as int] == v@.subrange(a as int, b as int));
        r.push(text_from_chars(&v.as_slice()[a..b]));
        k = k + 1;
    }
    assert(r@.map_values(|l: String| l@) =~= lines_spec(s@));
    r
}

/// The trimmed lines of a text that are not blank, in order.
pub open spec fn nonblank_trimmed_lines(s: Seq<char>) -> Seq<Seq<char>> {
    lines_spec(s).map_values(|l: Seq<char>| trim_spec(l)).filter(|l: Seq<char>| l.len() > 0)
}

/// Why a text is not the decimal numeral of a `u64` (the kinds
/// `str::parse::<u64>` reports).
#[derive(Debug, PartialEq, Eq, Structural)]
pub enum NumeralError {
    Empty,
    InvalidDigit,
    Overflow,
}

impl NumeralError {
    /// The message `std` gives for this kind of failure.
    pub fn message(&self) -> (r: String)
        ensures
            r@ == numeral_message(*self),
    {
        match self {
            NumeralError::Empty => "cannot parse integer from empty string".to_string(),
            NumeralError::InvalidDigit => "invalid digit found in string".to_string(),
            NumeralError::Overflow => "number too large to fit in target type".to_string(),
        }
    }
}

pub open spec fn numeral_message(e: NumeralError) -> Seq<char> {
    match e {
        NumeralError::Empty => "cannot parse integer from empty string"@,
        NumeralError::InvalidDigit => "invalid digit found in string"@,
        NumeralError::Overflow => "number too large to fit in target type"@,
    }
}

pub open spec fn is_digit(c: char) -> bool {
    '0' <= c && c <= '9'
}

pub open spec fn digit_value(c: char) -> nat {
    (c as u32 - '0' as u32) as nat
}

/// Reads the digits of `s` from position `i` on, onto `acc`, failing at the
/// first character that is not a digit or at the first digit that takes the
/// value past `u64::MAX`.
pub open spec fn scan_digits(s: Seq<char>, i: int, acc: nat) -> Result<u64, NumeralError>
    decreases s.len() - i,
{
    if i >= s.len() {
        Ok(acc as u64)
    } else if !is_digit(s[i]) {
        Err(NumeralError::InvalidDigit)
    } else if acc * 10 + digit_value(s[i]) > u64::MAX {
        Err(NumeralError::Overflow)
    } else {
        scan_digits(s, i + 1, acc * 10 + digit_value(s[i]))
    }
}

/// What `str::parse::<u64>` gives: an optional `+` then decimal digits.
pub open spec fn parse_u64_spec(s: Seq<char>) -> Result<u64, NumeralError> {
    if s.len() == 0 {
        Err(NumeralError::Empty)
    } else if s[0] == '+' {
        if s.len() == 1 {
            Err(NumeralError::InvalidDigit)
        } else {
            scan_digits(s, 1, 0)
        }
    } else {
        scan_digits(s, 0, 0)
    }
}

/// Reads a `u64` from its decimal numeral as `str::parse::<u64>` does.
pub fn parse_u64(s: &str) -> (r: Result<u64, NumeralError>)
    ensures
        r == parse_u64_spec(s@),
{
    let v = crate::form::chars_of(s);
    if v.len() == 0 {
        return Err(NumeralError::Empty);
    }
    let mut i: usize = 0;
    if v[0] == '+' {
        if v.len() == 1 {
            return Err(NumeralError::InvalidDigit);
        }
        i = 1;
    }
    let mut acc: u64 = 0;
    while i < v.len()
        invariant
            v@ == s@,
            v.len() > 0,
            i <= v.len(),
            parse_u64_spec(s@) == scan_digits(s@, i as int, acc as nat),
        decreases v.len() - i,
    {
        let c = v[i];
        if !('0' <= c && c <= '9') {
            return Err(NumeralError::InvalidDigit);
        }
        let d = (c as u32 - '0' as u32) as u64;
        assert(d == digit_value(c));
        if acc > (u64::MAX - d) / 10 {
            assert(acc * 10 + d > u64::MAX) by (nonlinear_arith)
                requires
                    acc > (u64::MAX - d) / 10,
                    d <= 9,
            ;
            return Err(NumeralError::Overflow);
        }
        assert(acc * 10 + d <= u64::MAX) by (nonlinear_arith)
            requires
                acc <= (u64::MAX - d) / 10,
                d <= 9,
        ;
        acc = acc * 10 + d;
        i = i + 1;
    }
    Ok(acc)
}

/// The number a string of decimal digits spells.
pub open spec fn digits_value(s: Seq<char>) -> nat
    decreases s.len(),
{
    if s.len() == 0 {
        0
    } else {
        digits_value(s.drop_last()) * 10 + digit_value(s.last())
    }
}

proof fn lemma_digit_char(d: int)
    requires
        0 <= d < 10,
    ensures
        is_digit(digit_char(d)),
        digit_value(digit_char(d)) == d,
{
    assert(('0' as u32) == 48 && ('9' as u32) == 57);
    if d == 0 {
    } else if d == 1 {
        assert(('1' as u32) == 49);
    } else if d == 2 {
        assert(('2' as u32) == 50);
    } else if d == 3 {
        assert(('3' as u32) == 51);
    } else if d == 4 {
        assert(('4' as u32) == 52);
    } else if d == 5 {
        assert(('5' as u32) == 53);
    } else if d == 6 {
        assert(('6' as u32) == 54);
    } else if d == 7 {
        assert(('7' as u32) == 55);
    } else if d == 8 {
        assert(('8' as u32) == 56);
    }
}

/// A decimal numeral is made of digits and spells its number.
pub proof fn lemma_decimal_spells(n: nat)
    ensures
        decimal(n).len() > 0,
        forall|i: int| 0 <= i < decimal(n).len() ==> is_digit(#[trigger] decimal(n)[i]),
        digits_value(decimal(n)) == n,
    decreases n,
{
    if n >= 10 {
        lemma_decimal_spells(n / 10);
        lemma_digit_char((n % 10) as int);
        let d = decimal(n);
        assert(d.drop_last() =~= decimal(n / 10));
        assert(d.last() == digit_char((n % 10) as int));
        assert(n == (n / 10) * 10 + n % 10);
        assert(digits_value(d) == digits_value(d.drop_last()) * 10 + digit_value(d.last()));
        assert(digits_value(d) == (n / 10) * 10 + n % 10);
        assert forall|i: int| 0 <= i < d.len() implies is_digit(#[trigger] d[i]) by {
            if i < d.len() - 1 {
                assert(d[i] == decimal(n / 10)[i]);
            }
        }
    } else {
        lemma_digit_char(n as int);
        let d = decimal(n);
        assert(d.drop_last() =~= Seq::<char>::empty());
        assert(digits_value(d) == digits_value(d.drop_last()) * 10 + digit_value(d.last()));
    }
}

/// A prefix of a string of digits spells no more than the whole.
proof fn lemma_digits_prefix(s: Seq<char>, k: int)
    requires
        0 <= k <= s.len(),
    ensures
        digits_value(s.take(k)) <= digits_value(s),
    decreases s.len() - k,
{
    if k < s.len() {
        lemma_digits_prefix(s, k + 1);
        assert(s.take(k + 1).drop_last() =~= s.take(k));
    } else {
        assert(s.take(k) =~= s);
    }
}

proof fn lemma_scan_digits(s: Seq<char>, k: int)
    requires
        0 <= k <= s.len(),
        forall|i: int| 0 <= i < s.len() ==> is_digit(#[trigger] s[i]),
        digits_value(s) <= u64::MAX,
    ensures
        scan_digits(s, k, digits_value(s.take(k))) == Ok::<u64, NumeralError>(digits_value(s) as u64),
    decreases s.len() - k,
{
    if k == s.len() {
        assert(s.take(k) =~= s);
    } else {
        assert(s.take(k + 1).drop_last() =~= s.take(k));
        assert(s.take(k + 1).last() == s[k]);
        lemma_digits_prefix(s, k + 1);
        lemma_scan_digits(s, k + 1);
    }
}

/// Reading back the decimal numeral of a `u64` gives the number.
pub proof fn lemma_parse_decimal(n: u64)
    ensures
        parse_u64_spec(decimal(n as nat)) == Ok::<u64, NumeralError>(n),
{
    let d = decimal(n as nat);
    lemma_decimal_spells(n as nat);
    assert(d.take(0) =~= Seq::<char>::empty());
    lemma_scan_digits(d, 0);
    assert(is_digit(d[0]));
}

/// There is always at least one piece between newlines.
pub proof fn lemma_pieces_nonempty(s: Seq<char>)
    ensures
        newline_pieces(s).len() >= 1,
    decreases s.len(),
{
    if s.len() > 0 {
        lemma_pieces_nonempty(s.drop_last());
    }
}

/// Text without a newline, appended, extends the last piece.
pub proof fn lemma_pieces_extend(x: Seq<char>, z: Seq<char>)
    requires
        !z.contains('\n'),
    ensures
        newline_pieces(x + z) == newline_pieces(x).update(
            newline_pieces(x).len() - 1,
            newline_pieces(x).last() + z,
        ),
    decreases z.len(),
{
    lemma_pieces_nonempty(x);
    let p = newline_pieces(x);
    if z.len() == 0 {
        assert(x + z =~= x);
        assert(p.last() + z =~= p.last());
        assert(p.update(p.len() - 1, p.last()) =~= p);
    } else {
        let z1 = z.drop_last();
        assert(!z1.contains('\n')) by {
            if z1.contains('\n') {
                let i = choose|i: int| 0 <= i < z1.len() && z1[i] == '\n';
                assert(z[i] == '\n');
            }
        }
        lemma_pieces_extend(x, z1);
        assert((x + z).drop_last() =~= x + z1);
        assert((x + z).last() == z.last());
        assert(z.last() != '\n') by {
            assert(z[z.len() - 1] == z.last());
        }
        let q = newline_pieces(x + z1);
        assert(q.len() == p.len());
        assert(q.last() == p.last() + z1);
        assert(q.last().push(z.last()) =~= p.last() + z);
        assert(q.update(q.len() - 1, q.last().push(z.last())) =~= p.update(p.len() - 1, p.last() + z));
    }
}

} // verus!
