//! Persistent stores and the index of shortest forms.
use std::collections::{BTreeMap, BTreeSet};
use vstd::prelude::*;
use vstd::string::*;
use vstd::std_specs::iter::IteratorSpec;
use crate::collections::{lists_entries, lists_texts, text_entries, text_entries_in_order, texts, texts_in_order, views_of_pairs, views_of_strings};
use crate::layers::{fst_accepts, lemma_set_layer, SetLayer, byte_keys, byte_pairs, entries_increase, keys_increase, lemma_key_listing_describes, lemma_listed_map_unique, lemma_listed_set_unique, lemma_listing_describes, lemma_listing_map_finite, lemma_listing_set_finite, lists_map, lists_set, map_layer_byte_len, map_layer_bytes, map_layer_decoded, map_layer_entries, map_layer_from_bytes, map_layer_from_listing, map_layer_get, map_layer_intact, map_layer_len, map_layer_listing, map_layer_size, map_of_listing, set_layer_byte_len, set_layer_bytes, set_layer_contains, set_layer_decoded, set_layer_from_bytes, set_layer_from_listing, set_layer_intact, set_layer_keys, set_layer_len, set_layer_listing, set_layer_size, set_layer_union, set_of_listing, union_listing};
use crate::text::{nonblank_trimmed_lines, trim_spec, lines_of, lines_spec, numeral_message, parse_u64, parse_u64_spec, bytes_of_texts, keyed_by_bytes, lemma_bytes_of_texts, lemma_keyed_by_bytes, lemma_utf8_injective, text_from_utf8, utf8, decimal, lemma_shortlex_antisymmetric, lemma_shortlex_total, lemma_shortlex_transitive, push_decimal, shortlex_le, text_shortlex_le, is_digit, lemma_decimal_spells, lemma_parse_decimal, lemma_pieces_extend, lemma_pieces_nonempty, newline_pieces, without_cr};

verus! {

/// Whether offering `expression` for `value` leaves the entry of `m` as it is:
/// the current form is no longer than `expression` (ties broken
/// lexicographically).
pub open spec fn keeps_current(m: Map<u64, Seq<char>>, value: u64, expression: Seq<char>) -> bool {
    m.contains_key(value) && shortlex_le(m[value], expression)
}

/// The index `m` after `expression` was offered for `value`.
pub open spec fn offered(m: Map<u64, Seq<char>>, value: u64, expression: Seq<char>) -> Map<
    u64,
    Seq<char>,
> {
    if keeps_current(m, value, expression) {
        m
    } else {
        m.insert(value, expression)
    }
}

/// `s` lists the entries of `m`, each once, in increasing order of value.
pub open spec fn is_listing(s: Seq<(u64, Seq<char>)>, m: Map<u64, Seq<char>>) -> bool {
    &&& forall|i: int, j: int| 0 <= i < j < s.len() ==> s[i].0 < s[j].0
    &&& forall|i: int| 0 <= i < s.len() ==> m.contains_key(#[trigger] s[i].0) && m[s[i].0] == s[i].1
    &&& forall|k: u64| m.contains_key(k) ==> exists|i: int| 0 <= i < s.len() && #[trigger] s[i].0 == k
}

/// The line of the index file for one entry: value, tab, form, newline.
pub open spec fn tsv_line(value: u64, expression: Seq<char>) -> Seq<char> {
    decimal(value as nat) + seq!['\t'] + expression + seq!['\n']
}

/// The lines of a listing, one after another.
pub open spec fn render_tsv(s: Seq<(u64, Seq<char>)>) -> Seq<char>
    decreases s.len(),
{
    if s.len() == 0 {
        Seq::empty()
    } else {
        render_tsv(s.drop_last()) + tsv_line(s.last().0, s.last().1)
    }
}

/// The text of the index file for `m`: its entries in increasing order of value.
pub open spec fn tsv_of(m: Map<u64, Seq<char>>) -> Seq<char> {
    render_tsv(choose|s: Seq<(u64, Seq<char>)>| is_listing(s, m))
}

/// The last entry of a listing holds the largest value of the map.
proof fn lemma_listing_last(s: Seq<(u64, Seq<char>)>, m: Map<u64, Seq<char>>, k: u64)
    requires
        is_listing(s, m),
        s.len() > 0,
        m.contains_key(k),
    ensures
        k <= s.last().0,
{
    let i = choose|i: int| 0 <= i < s.len() && #[trigger] s[i].0 == k;
    if i < s.len() - 1 {
        assert(s[i].0 < s[s.len() - 1].0);
    }
}

/// A map has exactly one listing.
pub proof fn lemma_listing_unique(s: Seq<(u64, Seq<char>)>, t: Seq<(u64, Seq<char>)>, m: Map<
    u64,
    Seq<char>,
>)
    requires
        is_listing(s, m),
        is_listing(t, m),
    ensures
        s == t,
    decreases s.len(),
{
    if s.len() == 0 {
        if t.len() > 0 {
            let k = t[0].0;
            assert(m.contains_key(k));
            let i = choose|i: int| 0 <= i < s.len() && #[trigger] s[i].0 == k;
        }
        assert(s =~= t);
    } else if t.len() == 0 {
        let k = s[0].0;
        assert(m.contains_key(k));
        let i = choose|i: int| 0 <= i < t.len() && #[trigger] t[i].0 == k;
    } else {
        let a = s.last().0;
        let b = t.last().0;
        lemma_listing_last(s, m, b);
        lemma_listing_last(t, m, a);
        let m2 = m.remove(a);
        let s2 = s.drop_last();
        let t2 = t.drop_last();
        assert(is_listing(s2, m2)) by {
            assert forall|k: u64| m2.contains_key(k) implies exists|i: int|
                0 <= i < s2.len() && #[trigger] s2[i].0 == k by {
                let i = choose|i: int| 0 <= i < s.len() && #[trigger] s[i].0 == k;
                assert(s2[i].0 == k);
            }
            assert forall|i: int| 0 <= i < s2.len() implies m2.contains_key(#[trigger] s2[i].0)
                && m2[s2[i].0] == s2[i].1 by {
                assert(s[i].0 < s[s.len() - 1].0);
            }
        }
        assert(is_listing(t2, m2)) by {
            assert forall|k: u64| m2.contains_key(k) implies exists|i: int|
                0 <= i < t2.len() && #[trigger] t2[i].0 == k by {
                let i = choose|i: int| 0 <= i < t.len() && #[trigger] t[i].0 == k;
                assert(t2[i].0 == k);
            }
            assert forall|i: int| 0 <= i < t2.len() implies m2.contains_key(#[trigger] t2[i].0)
                && m2[t2[i].0] == t2[i].1 by {
                assert(t[i].0 < t[t.len() - 1].0);
            }
        }
        lemma_listing_unique(s2, t2, m2);
        assert(s =~= s2.push(s.last()));
        assert(t =~= t2.push(t.last()));
    }
}

/// After an offer, the form recorded for the value is the shortest of the
/// offered form and the one recorded before (ties broken lexicographically),
/// and every other value keeps its form.
pub proof fn law_offer_keeps_shortest(m: Map<u64, Seq<char>>, value: u64, expression: Seq<char>)
    ensures
        offered(m, value, expression).contains_key(value),
        shortlex_le(offered(m, value, expression)[value], expression),
        m.contains_key(value) ==> shortlex_le(offered(m, value, expression)[value], m[value]),
        offered(m, value, expression)[value] == expression || (m.contains_key(value)
            && offered(m, value, expression)[value] == m[value]),
        forall|k: u64| k != value ==> #[trigger] offered(m, value, expression).contains_key(k)
            == m.contains_key(k) && (m.contains_key(k) ==> offered(m, value, expression)[k]
            == m[k]),
{
    lemma_shortlex_total(expression, expression);
    if m.contains_key(value) {
        lemma_shortlex_total(m[value], m[value]);
        lemma_shortlex_total(m[value], expression);
    }
}

/// The order in which forms are offered does not matter: two offers give
/// the same index either way round.
pub proof fn law_offers_commute(
    m: Map<u64, Seq<char>>,
    v1: u64,
    e1: Seq<char>,
    v2: u64,
    e2: Seq<char>,
)
    ensures
        offered(offered(m, v1, e1), v2, e2) == offered(offered(m, v2, e2), v1, e1),
{
    if v1 == v2 {
        lemma_shortlex_total(e1, e2);
        if m.contains_key(v1) {
            let c = m[v1];
            lemma_shortlex_total(c, e1);
            lemma_shortlex_total(c, e2);
            if shortlex_le(c, e1) && shortlex_le(e1, c) {
                lemma_shortlex_antisymmetric(c, e1);
            }
            if shortlex_le(c, e2) && shortlex_le(e2, c) {
                lemma_shortlex_antisymmetric(c, e2);
            }
            if shortlex_le(e1, c) && shortlex_le(c, e2) {
                lemma_shortlex_transitive(e1, c, e2);
            }
            if shortlex_le(e2, c) && shortlex_le(c, e1) {
                lemma_shortlex_transitive(e2, c, e1);
            }
            if shortlex_le(e1, e2) && shortlex_le(e2, c) {
                lemma_shortlex_transitive(e1, e2, c);
            }
            if shortlex_le(e2, e1) && shortlex_le(e1, c) {
                lemma_shortlex_transitive(e2, e1, c);
            }
        }
        if shortlex_le(e1, e2) && shortlex_le(e2, e1) {
            lemma_shortlex_antisymmetric(e1, e2);
        }
    }
    assert(offered(offered(m, v1, e1), v2, e2) =~= offered(offered(m, v2, e2), v1, e1));
}

/// `x` is a form known for `v`: the one the index `m` holds for it, or one
/// the listing `l` offers for it.
pub open spec fn known_for(m: Map<u64, Seq<char>>, l: Seq<(Seq<char>, u64)>, v: u64, x: Seq<char>) -> bool {
    (m.contains_key(v) && m[v] == x) || exists|i: int| 0 <= i < l.len() && #[trigger] l[i] == (x, v)
}

/// The index holds the least known form for each value: after the forms of
/// a listing are offered in turn, a value has an entry exactly when the index
/// or the listing knows a form for it, and the entry is the shortest such
/// form (ties broken lexicographically).
pub proof fn law_index_holds_least(m: Map<u64, Seq<char>>, l: Seq<(Seq<char>, u64)>)
    ensures
        forall|v: u64| #[trigger] offered_all(m, l).contains_key(v) <==> (exists|x: Seq<char>| known_for(m, l, v, x)),
        forall|v: u64| #[trigger] offered_all(m, l).contains_key(v) ==> known_for(m, l, v, offered_all(m, l)[v]),
        forall|v: u64, x: Seq<char>| #[trigger] known_for(m, l, v, x) ==> shortlex_le(offered_all(m, l)[v], x),
    decreases l.len(),
{
    if l.len() == 0 {
        assert forall|v: u64, x: Seq<char>| #[trigger] known_for(m, l, v, x) implies shortlex_le(offered_all(m, l)[v], x) by {
            lemma_shortlex_total(x, x);
        }
        assert forall|v: u64| #[trigger] offered_all(m, l).contains_key(v) implies known_for(m, l, v, offered_all(m, l)[v]) by {}
        assert forall|v: u64| (exists|x: Seq<char>| known_for(m, l, v, x)) implies #[trigger] offered_all(m, l).contains_key(v) by {}
        assert forall|v: u64| #[trigger] offered_all(m, l).contains_key(v) implies (exists|x: Seq<char>| known_for(m, l, v, x)) by {
            assert(known_for(m, l, v, m[v]));
        }
    } else {
        let l1 = l.drop_last();
        let (e, w) = l.last();
        law_index_holds_least(m, l1);
        let r1 = offered_all(m, l1);
        let r = offered_all(m, l);
        assert(r == offered(r1, w, e));
        law_offer_keeps_shortest(r1, w, e);
        // What the listing knows, the shorter one knows too, but for the
        // last offer.
        assert forall|v: u64, x: Seq<char>| #[trigger] known_for(m, l, v, x) implies known_for(m, l1, v, x) || (x == e && v == w) by {
            if !(m.contains_key(v) && m[v] == x) {
                let i = choose|i: int| 0 <= i < l.len() && #[trigger] l[i] == (x, v);
                if i < l1.len() {
                    assert(l1[i] == l[i]);
                }
            }
        }
        assert forall|v: u64, x: Seq<char>| #[trigger] known_for(m, l1, v, x) implies known_for(m, l, v, x) by {
            if !(m.contains_key(v) && m[v] == x) {
                let i = choose|i: int| 0 <= i < l1.len() && #[trigger] l1[i] == (x, v);
                assert(l[i] == l1[i]);
            }
        }
        assert(known_for(m, l, w, e)) by {
            assert(l[l.len() - 1] == (e, w));
        }
        assert forall|v: u64, x: Seq<char>| #[trigger] known_for(m, l, v, x) implies shortlex_le(r[v], x) by {
            if v == w {
                if x == e {
                } else {
                    assert(known_for(m, l1, v, x));
                    assert(r1.contains_key(v));
                    lemma_shortlex_transitive(r[v], r1[v], x);
                }
            } else {
                assert(known_for(m, l1, v, x));
            }
        }
        assert forall|v: u64| #[trigger] r.contains_key(v) implies known_for(m, l, v, r[v]) by {
            if v == w {
                if r[v] != e {
                    assert(known_for(m, l1, v, r1[v]));
                }
            } else {
                assert(known_for(m, l1, v, r1[v]));
            }
        }
        assert forall|v: u64| #[trigger] r.contains_key(v) <==> (exists|x: Seq<char>| known_for(m, l, v, x)) by {
            if r.contains_key(v) {
                assert(known_for(m, l, v, r[v]));
            }
            if exists|x: Seq<char>| known_for(m, l, v, x) {
                let x = choose|x: Seq<char>| known_for(m, l, v, x);
                if v != w {
                    assert(known_for(m, l1, v, x));
                }
            }
        }
    }
}

/// The index does not depend on the order of a whole sequence of offers:
/// two listings holding the same offers (in any order, repeated or not)
/// leave the same index.
pub proof fn law_offer_order_is_irrelevant(
    m: Map<u64, Seq<char>>,
    l1: Seq<(Seq<char>, u64)>,
    l2: Seq<(Seq<char>, u64)>,
)
    requires
        forall|p: (Seq<char>, u64)| l1.contains(p) <==> l2.contains(p),
    ensures
        offered_all(m, l1) == offered_all(m, l2),
{
    law_index_holds_least(m, l1);
    law_index_holds_least(m, l2);
    let r1 = offered_all(m, l1);
    let r2 = offered_all(m, l2);
    assert forall|v: u64, x: Seq<char>| #[trigger] known_for(m, l1, v, x) == known_for(m, l2, v, x) by {
        if !(m.contains_key(v) && m[v] == x) {
            if exists|i: int| 0 <= i < l1.len() && #[trigger] l1[i] == (x, v) {
                let i = choose|i: int| 0 <= i < l1.len() && #[trigger] l1[i] == (x, v);
                assert(l1.contains((x, v)));
                assert(l2.contains((x, v)));
            }
            if exists|i: int| 0 <= i < l2.len() && #[trigger] l2[i] == (x, v) {
                let i = choose|i: int| 0 <= i < l2.len() && #[trigger] l2[i] == (x, v);
                assert(l2.contains((x, v)));
                assert(l1.contains((x, v)));
            }
        }
    }
    assert forall|v: u64| #[trigger] r1.contains_key(v) == r2.contains_key(v) by {
        if r1.contains_key(v) {
            assert(known_for(m, l1, v, r1[v]));
            assert(known_for(m, l2, v, r1[v]));
        }
        if r2.contains_key(v) {
            assert(known_for(m, l2, v, r2[v]));
            assert(known_for(m, l1, v, r2[v]));
        }
    }
    assert forall|v: u64| r1.contains_key(v) implies #[trigger] r1[v] == r2[v] by {
        assert(known_for(m, l1, v, r1[v]));
        assert(known_for(m, l2, v, r2[v]));
        assert(known_for(m, l2, v, r1[v]));
        assert(known_for(m, l1, v, r2[v]));
        lemma_shortlex_antisymmetric(r1[v], r2[v]);
    }
    assert(r1 =~= r2);
}

/// Once a line of the index file is bad, reading more lines keeps its error.
proof fn lemma_tsv_error_stays(lines: Seq<Seq<char>>, k: int)
    requires
        0 <= k < lines.len(),
        tsv_entries_spec(lines.take(k)) is Ok,
        tsv_line_spec(lines[k]) is Err,
    ensures
        tsv_entries_spec(lines) == Err::<Map<u64, Seq<char>>, Seq<char>>(tsv_line_spec(lines[k])->Err_0),
    decreases lines.len() - k,
{
    assert(lines.take(k + 1).drop_last() =~= lines.take(k));
    lemma_tsv_error_prefix(lines, k + 1);
}

/// An error among the first `n` lines is the error of all of them.
proof fn lemma_tsv_error_prefix(lines: Seq<Seq<char>>, n: int)
    requires
        0 <= n <= lines.len(),
        tsv_entries_spec(lines.take(n)) is Err,
    ensures
        tsv_entries_spec(lines) == tsv_entries_spec(lines.take(n)),
    decreases lines.len() - n,
{
    if n == lines.len() {
        assert(lines.take(n) =~= lines);
    } else {
        assert(lines.take(n + 1).drop_last() =~= lines.take(n));
        lemma_tsv_error_prefix(lines, n + 1);
    }
}

/// Keys listed in increasing order strictly increase.
proof fn lemma_increasing_keys(keys: Seq<u64>, i: int, j: int)
    requires
        vstd::std_specs::btree::increasing_seq(keys),
        0 <= i < j < keys.len(),
    ensures
        keys[i] < keys[j],
{
    assert(vstd::laws_cmp::obeys_cmp::<u64>());
    assert(vstd::std_specs::cmp::OrdSpec::cmp_spec(&keys[i], &keys[j]) is Less);
}

/// Index of shortest forms: for each value, the shortest known form that
/// evaluates to it, ties broken lexicographically so that the index is
/// deterministic. It remembers whether it changed since it was last saved.
pub struct MinIndex {
    entries: BTreeMap<u64, String>,
    dirty: bool,
}

impl View for MinIndex {
    type V = Map<u64, Seq<char>>;

    closed spec fn view(&self) -> Map<u64, Seq<char>> {
        self.entries@.map_values(|e: String| e@)
    }
}

/// The position of the first tab in `line` at or after `i`.
pub open spec fn tab_from(line: Seq<char>, i: int) -> Option<int>
    decreases line.len() - i,
{
    if i >= line.len() {
        None
    } else if line[i] == '\t' {
        Some(i)
    } else {
        tab_from(line, i + 1)
    }
}

/// A line parted at its first tab: the text before it and the text after it.
pub fn split_at_tab(line: &str) -> (r: Option<(String, String)>)
    ensures
        tab_from(line@, 0) is None ==> r is None,
        tab_from(line@, 0) matches Some(t) ==> (r matches Some(p) && p.0@ == line@.take(t) && p.1@
            == line@.skip(t + 1)),
{
    let v = crate::form::chars_of(line);
    let mut t: usize = 0;
    while t < v.len() && v[t] != '\t'
        invariant
            v@ == line@,
            0 <= t <= v.len(),
            tab_from(line@, 0) == tab_from(line@, t as int),
        decreases v.len() - t,
    {
        t = t + 1;
    }
    if t == v.len() {
        return None;
    }
    let before = crate::text::text_from_chars(&v.as_slice()[0..t]);
    let after = crate::text::text_from_chars(&v.as_slice()[t + 1..v.len()]);
    assert(before@ =~= line@.take(t as int));
    assert(after@ =~= line@.skip(t + 1));
    Some((before, after))
}

/// One line of the index file read as a value and its form, or the error
/// message the line earns.
pub open spec fn tsv_line_spec(line: Seq<char>) -> Result<(u64, Seq<char>), Seq<char>> {
    match tab_from(line, 0) {
        None => Err("malformed index line: "@ + line),
        Some(t) => match parse_u64_spec(line.take(t)) {
            Err(k) => Err(line + ": "@ + numeral_message(k)),
            Ok(v) => Ok((v, line.skip(t + 1))),
        },
    }
}

/// The index that lines of the index file describe (a later line for a
/// value replacing an earlier one), or the error of the first bad line.
pub open spec fn tsv_entries_spec(lines: Seq<Seq<char>>) -> Result<Map<u64, Seq<char>>, Seq<char>>
    decreases lines.len(),
{
    if lines.len() == 0 {
        Ok(Map::empty())
    } else {
        match tsv_entries_spec(lines.drop_last()) {
            Err(e) => Err(e),
            Ok(m) => match tsv_line_spec(lines.last()) {
                Err(e) => Err(e),
                Ok(entry) => Ok(m.insert(entry.0, entry.1)),
            },
        }
    }
}

/// The index after offering each listed form for its value, in order.
pub open spec fn offered_all(m: Map<u64, Seq<char>>, listing: Seq<(Seq<char>, u64)>) -> Map<
    u64,
    Seq<char>,
>
    decreases listing.len(),
{
    if listing.len() == 0 {
        m
    } else {
        offered(offered_all(m, listing.drop_last()), listing.last().1, listing.last().0)
    }
}

impl MinIndex {
    /// The index holds a form for finitely many values.
    pub proof fn lemma_finite(&self)
        ensures
            self@.dom().finite(),
    {
        assert(self@.dom() =~= self.entries@.dom());
    }

    /// Whether the index changed since it was last saved.
    pub closed spec fn is_dirty(&self) -> bool {
        self.dirty
    }

    /// An empty index with nothing to save.
    pub fn new() -> (r: Self)
        ensures
            r@ == Map::<u64, Seq<char>>::empty(),
            !r.is_dirty(),
    {
        let r = MinIndex { entries: BTreeMap::new(), dirty: false };
        assert(r@ =~= Map::<u64, Seq<char>>::empty());
        r
    }

    /// The index the text of an index file describes; the text is read line by
    /// line, a tab parting the value from its form.
    pub fn from_tsv(contents: &str) -> (r: Result<Self, String>)
        ensures
            tsv_entries_spec(lines_spec(contents@)) matches Ok(m) ==> (r matches Ok(idx) && idx@ == m
                && !idx.is_dirty()),
            tsv_entries_spec(lines_spec(contents@)) matches Err(e) ==> (r matches Err(msg) && msg@
                == e),
    {
        let lines = lines_of(contents);
        let ghost ls = lines@.map_values(|l: String| l@);
        let mut index = MinIndex::new();
        let mut k: usize = 0;
        while k < lines.len()
            invariant
                ls == lines@.map_values(|l: String| l@),
                ls == lines_spec(contents@),
                0 <= k <= lines.len(),
                tsv_entries_spec(ls.take(k as int)) == Ok::<Map<u64, Seq<char>>, Seq<char>>(index@),
                !index.is_dirty(),
            decreases lines.len() - k,
        {
            let line = lines[k].as_str();
            assert(ls.take(k + 1).drop_last() =~= ls.take(k as int));
            assert(ls.take(k + 1).last() == line@);
            let v = crate::form::chars_of(line);
            let mut t: usize = 0;
            while t < v.len() && v[t] != '\t'
                invariant
                    v@ == line@,
                    0 <= t <= v.len(),
                    tab_from(line@, 0) == tab_from(line@, t as int),
                decreases v.len() - t,
            {
                t = t + 1;
            }
            if t == v.len() {
                let mut msg = "malformed index line: ".to_string();
                msg.append(line);
                proof {
                    reveal_strlit("malformed index line: ");
                    lemma_tsv_error_stays(ls, k as int);
                }
                return Err(msg);
            }
            let value_text = crate::text::text_from_chars(&v.as_slice()[0..t]);
            let expression = crate::text::text_from_chars(&v.as_slice()[t + 1..v.len()]);
            assert(value_text@ =~= line@.take(t as int));
            assert(expression@ =~= line@.skip(t + 1));
            let value = match parse_u64(value_text.as_str()) {
                Ok(value) => value,
                Err(kind) => {
                    let mut msg = line.to_string();
                    msg.append(": ");
                    msg.append(kind.message().as_str());
                    proof {
                        reveal_strlit(": ");
                        lemma_tsv_error_stays(ls, k as int);
                    }
                    return Err(msg);
                },
            };
            let ghost before = index@;
            index.entries.insert(value, expression);
            assert(index@ =~= before.insert(value, line@.skip(t + 1)));
            k = k + 1;
        }
        assert(ls.take(lines.len() as int) =~= ls);
        Ok(index)
    }

    /// An index of every entry of a store, each offered in increasing order
    /// of its text; it counts as changed, so that it is saved.
    pub fn bootstrap(evaluations: &MapStore) -> (r: Result<Self, String>)
        requires
            evaluations.intact(),
        ensures
            r is Ok <==> forall|k: Seq<u8>| #[trigger] evaluations.contents().contains_key(k)
                ==> vstd::utf8::valid_utf8(k),
            r matches Ok(idx) ==> (exists|listing: Seq<(Seq<char>, u64)>|
                #![trigger offered_all(Map::empty(), listing)]
                lists_map(
                    listing.map_values(|p: (Seq<char>, u64)| (utf8(p.0), p.1)),
                    evaluations.contents(),
                ) && idx@ == offered_all(Map::empty(), listing)),
            r matches Ok(idx) ==> idx.is_dirty(),
    {
        let entries = match evaluations.listing() {
            Ok(entries) => entries,
            Err(e) => return Err(e),
        };
        let ghost listing = views_of_pairs(entries@);
        let mut index = MinIndex::new();
        let mut k: usize = 0;
        while k < entries.len()
            invariant
                listing == views_of_pairs(entries@),
                0 <= k <= entries.len(),
                index@ == offered_all(Map::empty(), listing.take(k as int)),
            decreases entries.len() - k,
        {
            assert(listing.take(k + 1).drop_last() =~= listing.take(k as int));
            index.offer(entries[k].1, entries[k].0.as_str());
            k = k + 1;
        }
        assert(listing.take(entries.len() as int) =~= listing);
        index.dirty = true;
        Ok(index)
    }

    /// Records `expression` for `value` unless the form already recorded is
    /// no longer than it (ties broken lexicographically).
    pub fn offer(&mut self, value: u64, expression: &str)
        ensures
            final(self)@ == offered(old(self)@, value, expression@),
            old(self)@.dom().finite(),
            final(self)@.dom().finite(),
            final(self).is_dirty() == (old(self).is_dirty() || !keeps_current(
                old(self)@,
                value,
                expression@,
            )),
    {
        assert(self@.dom() =~= self.entries@.dom());
        let keep = match self.entries.get(&value) {
            Some(current) => text_shortlex_le(current.as_str(), expression),
            None => false,
        };
        if !keep {
            self.entries.insert(value, expression.to_string());
            self.dirty = true;
        }
        assert(self@ =~= offered(old(self)@, value, expression@));
        assert(self@.dom() =~= self.entries@.dom());
    }

    /// The form recorded for `value`, if any.
    pub fn get(&self, value: u64) -> (r: Option<&str>)
        ensures
            r matches Some(e) ==> self@.contains_key(value) && e@ == self@[value],
            r is None ==> !self@.contains_key(value),
    {
        match self.entries.get(&value) {
            Some(e) => Some(e.as_str()),
            None => None,
        }
    }

    /// The number of values the index holds a form for.
    pub fn len(&self) -> (r: usize)
        ensures
            r == self@.len(),
            self@.dom().finite(),
    {
        assert(self@.dom() =~= self.entries@.dom());
        self.entries.len()
    }

    /// The text of the index file.
    pub fn render(&self) -> (r: String)
        ensures
            r@ == tsv_of(self@),
    {
        let mut out = String::new();
        let ghost mut listing: Seq<(u64, Seq<char>)> = Seq::empty();
        let entries = self.entries.iter();
        proof {
            assert(vstd::std_specs::btree::key_obeys_cmp_spec::<u64>());
        }
        let ghost all = entries.remaining();
        for kv in it: entries
            invariant
                it.seq() == all,
                listing.len() == it.index(),
                forall|i: int|
                    0 <= i < listing.len() ==> #[trigger] listing[i] == (*all[i].0, all[i].1@),
                out@ == render_tsv(listing),
        {
            let (value, expression) = kv;
            let ghost before = out@;
            let ghost shorter = listing;
            proof {
                listing = listing.push((*value, expression@));
            }
            push_decimal(&mut out, *value);
            out.append("\t");
            out.append(expression.as_str());
            out.append("\n");
            proof {
                reveal_strlit("\t");
                reveal_strlit("\n");
                assert(listing.drop_last() =~= shorter);
                assert(out@ =~= before + tsv_line(*value, expression@));
            }
        }
        proof {
            let m = self.entries@;
            let keys = all.map_values(|kv: (&u64, &String)| *kv.0);
            assert(vstd::std_specs::btree::increasing_seq(keys));
            assert forall|i: int, j: int| 0 <= i < j < listing.len() implies listing[i].0
                < listing[j].0 by {
                lemma_increasing_keys(keys, i, j);
            }
            assert forall|i: int| 0 <= i < listing.len() implies self@.contains_key(
                #[trigger] listing[i].0,
            ) && self@[listing[i].0] == listing[i].1 by {
                assert(m.contains_key(*all[i].0));
                assert(m[*all[i].0] == *all[i].1);
            }
            assert forall|k: u64| self@.contains_key(k) implies exists|i: int|
                0 <= i < listing.len() && #[trigger] listing[i].0 == k by {
                assert(m.contains_key(k));
                assert(all.contains((&k, &m[k])));
                let i = choose|i: int| 0 <= i < all.len() && all[i] == (&k, &m[k]);
                assert(listing[i].0 == k);
            }
            assert(is_listing(listing, self@));
            lemma_listing_unique(listing, choose|s: Seq<(u64, Seq<char>)>| is_listing(s, self@), self@);
        }
        out
    }

    /// The text to write to the index file when the index changed since it
    /// was last saved; the index then counts as saved.
    pub fn save_if_dirty(&mut self) -> (r: Option<String>)
        ensures
            final(self)@ == old(self)@,
            !final(self).is_dirty(),
            old(self).is_dirty() ==> (r matches Some(t) && t@ == tsv_of(old(self)@)),
            !old(self).is_dirty() ==> r is None,
    {
        if self.dirty {
            let rendered = self.render();
            self.dirty = false;
            Some(rendered)
        } else {
            None
        }
    }
}

/// The entries of a batch of texts and values, keyed by bytes, in the order
/// of their keys.
pub(crate) fn entry_listing(batch: &BTreeMap<String, u64>) -> (r: Vec<(Vec<u8>, u64)>)
    ensures
        entries_increase(byte_pairs(r@)),
        map_of_listing(byte_pairs(r@)) == keyed_by_bytes(text_entries(batch)),
{
    let items = text_entries_in_order(batch);
    let ghost v = views_of_pairs(items@);
    let mut r: Vec<(Vec<u8>, u64)> = Vec::new();
    let mut i: usize = 0;
    while i < items.len()
        invariant
            v == views_of_pairs(items@),
            lists_entries(v, text_entries(batch)),
            0 <= i <= items.len(),
            r.len() == i,
            forall|t: int| 0 <= t < i ==> #[trigger] byte_pairs(r@)[t] == (utf8(v[t].0), v[t].1),
        decreases items.len() - i,
    {
        let key = items[i].0.as_str().as_bytes_vec();
        assert(v[i as int].0 == items@[i as int].0@);
        let ghost before = byte_pairs(r@);
        r.push((key, items[i].1));
        assert(byte_pairs(r@) =~= before.push((utf8(v[i as int].0), v[i as int].1)));
        assert(byte_pairs(r@)[i as int] == (utf8(v[i as int].0), v[i as int].1));
        i = i + 1;
    }
    let ghost rb = byte_pairs(r@);
    let ghost m = keyed_by_bytes(text_entries(batch));
    assert(entries_increase(rb));
    proof {
        lemma_listing_describes(rb);
        assert(lists_map(rb, m)) by {
            assert forall|t: int| 0 <= t < rb.len() implies m.contains_key(#[trigger] rb[t].0)
                && m[rb[t].0] == rb[t].1 by {
                lemma_keyed_by_bytes(text_entries(batch), v[t].0);
            }
            assert forall|k: Seq<u8>| m.contains_key(k) implies exists|t: int|
                0 <= t < rb.len() && #[trigger] rb[t].0 == k by {
                let text = vstd::utf8::decode_utf8(k);
                let t = choose|t: int| 0 <= t < v.len() && #[trigger] v[t].0 == text;
                assert(rb[t].0 == k);
            }
        }
        lemma_listed_map_unique(rb, m, map_of_listing(rb));
    }
    r
}

/// The texts of a batch, as bytes, in increasing order.
fn key_listing(batch: &BTreeSet<String>) -> (r: Vec<Vec<u8>>)
    ensures
        keys_increase(byte_keys(r@)),
        set_of_listing(byte_keys(r@)) == bytes_of_texts(texts(batch)),
{
    let items = texts_in_order(batch);
    let ghost v = views_of_strings(items@);
    let mut r: Vec<Vec<u8>> = Vec::new();
    let mut i: usize = 0;
    while i < items.len()
        invariant
            v == views_of_strings(items@),
            lists_texts(v, texts(batch)),
            0 <= i <= items.len(),
            r.len() == i,
            forall|t: int| 0 <= t < i ==> #[trigger] byte_keys(r@)[t] == utf8(v[t]),
        decreases items.len() - i,
    {
        let key = items[i].as_str().as_bytes_vec();
        assert(v[i as int] == items@[i as int]@);
        let ghost before = byte_keys(r@);
        r.push(key);
        assert(byte_keys(r@) =~= before.push(utf8(v[i as int])));
        assert(byte_keys(r@)[i as int] == utf8(v[i as int]));
        i = i + 1;
    }
    let ghost rb = byte_keys(r@);
    let ghost m = bytes_of_texts(texts(batch));
    assert(keys_increase(rb));
    proof {
        lemma_key_listing_describes(rb);
        assert(lists_set(rb, m)) by {
            assert forall|t: int| 0 <= t < rb.len() implies m.contains(#[trigger] rb[t]) by {
                lemma_bytes_of_texts(texts(batch), v[t]);
            }
            assert forall|k: Seq<u8>| m.contains(k) implies exists|t: int|
                0 <= t < rb.len() && #[trigger] rb[t] == k by {
                let text = vstd::utf8::decode_utf8(k);
                let t = choose|t: int| 0 <= t < v.len() && #[trigger] v[t] == text;
                assert(rb[t] == k);
            }
        }
        lemma_listed_set_unique(rb, m, set_of_listing(rb));
    }
    r
}

/// A map keyed by texts whose byte-keyed form has finitely many keys has
/// finitely many keys itself, and as many.
pub proof fn lemma_keyed_len(m: Map<Seq<char>, u64>)
    requires
        keyed_by_bytes(m).dom().finite(),
    ensures
        m.dom().finite(),
        keyed_by_bytes(m).len() == m.len(),
{
    let kd = keyed_by_bytes(m).dom();
    let dec = |b: Seq<u8>| vstd::utf8::decode_utf8(b);
    let enc = |t: Seq<char>| utf8(t);
    assert(m.dom() =~= kd.map(dec)) by {
        assert forall|t: Seq<char>| m.dom().contains(t) implies kd.map(dec).contains(t) by {
            lemma_keyed_by_bytes(m, t);
            vstd::utf8::encode_utf8_decode_utf8(t);
            assert(dec(utf8(t)) == t);
        }
    }
    kd.lemma_map_finite(dec);
    assert(m.dom().map(enc) =~= kd) by {
        assert forall|t: Seq<char>| m.dom().contains(t) implies kd.contains(#[trigger] enc(t)) by {
            lemma_keyed_by_bytes(m, t);
        }
        assert forall|b: Seq<u8>| kd.contains(b) implies m.dom().map(enc).contains(b) by {
            let t = dec(b);
            assert(enc(t) == b);
        }
    }
    assert(vstd::relations::injective_on(enc, m.dom())) by {
        assert forall|a: Seq<char>, b: Seq<char>| m.dom().contains(a) && m.dom().contains(b) && #[trigger] enc(a) == #[trigger] enc(b) implies a == b by {
            lemma_utf8_injective(a, b);
        }
    }
    vstd::set_lib::lemma_map_size(m.dom(), kd, enc);
}

/// A set of texts whose bytes form a finite set is finite itself, and as
/// large.
pub proof fn lemma_bytes_of_texts_len(s: Set<Seq<char>>)
    requires
        bytes_of_texts(s).finite(),
    ensures
        s.finite(),
        bytes_of_texts(s).len() == s.len(),
{
    let kd = bytes_of_texts(s);
    let dec = |b: Seq<u8>| vstd::utf8::decode_utf8(b);
    let enc = |t: Seq<char>| utf8(t);
    assert(s =~= kd.map(dec)) by {
        assert forall|t: Seq<char>| s.contains(t) implies kd.map(dec).contains(t) by {
            lemma_bytes_of_texts(s, t);
            vstd::utf8::encode_utf8_decode_utf8(t);
            assert(dec(utf8(t)) == t);
        }
    }
    kd.lemma_map_finite(dec);
    assert(s.map(enc) =~= kd) by {
        assert forall|t: Seq<char>| s.contains(t) implies kd.contains(#[trigger] enc(t)) by {
            lemma_bytes_of_texts(s, t);
        }
        assert forall|b: Seq<u8>| kd.contains(b) implies s.map(enc).contains(b) by {
            let t = dec(b);
            assert(enc(t) == b);
        }
    }
    assert(vstd::relations::injective_on(enc, s)) by {
        assert forall|a: Seq<char>, b: Seq<char>| s.contains(a) && s.contains(b) && #[trigger] enc(a) == #[trigger] enc(b) implies a == b by {
            lemma_utf8_injective(a, b);
        }
    }
    vstd::set_lib::lemma_map_size(s, kd, enc);
}

/// A two-layer store of values by text: a large immutable base layer and a
/// small recent layer that commits are unioned into. A lookup consults the
/// recent layer first.
pub struct MapStore {
    base: fst::Map<Vec<u8>>,
    recent: Option<fst::Map<Vec<u8>>>,
}

impl MapStore {
    /// What the base layer holds.
    pub closed spec fn base_entries(&self) -> Map<Seq<u8>, u64> {
        map_layer_entries(self.base)
    }

    /// What the recent layer holds (nothing when there is none).
    pub closed spec fn recent_entries(&self) -> Map<Seq<u8>, u64> {
        match self.recent {
            Some(r) => map_layer_entries(r),
            None => Map::empty(),
        }
    }

    /// Whether there is a recent layer.
    pub closed spec fn has_recent(&self) -> bool {
        self.recent is Some
    }

    /// The size in bytes of the recent layer (zero when there is none).
    pub closed spec fn recent_size(&self) -> nat {
        match self.recent {
            Some(r) => map_layer_size(r),
            None => 0,
        }
    }

    /// Whether both layers are FSTs that fst wrote, each holding finitely
    /// many entries; the reads of a store rely on it.
    pub closed spec fn intact(&self) -> bool {
        &&& map_layer_intact(self.base)
        &&& self.base_entries().dom().finite()
        &&& self.recent matches Some(r) ==> map_layer_intact(r)
        &&& self.recent_entries().dom().finite()
    }

    /// A store without a recent layer has a recent layer of no size and no
    /// entries.
    pub proof fn lemma_without_recent(&self)
        ensures
            !self.has_recent() ==> self.recent_size() == 0 && self.recent_entries() == Map::<
                Seq<u8>,
                u64,
            >::empty(),
    {
        if self.recent is None {
            assert(self.recent_entries() =~= Map::<Seq<u8>, u64>::empty());
        }
    }

    /// What a lookup answers: the recent layer over the base.
    pub open spec fn contents(&self) -> Map<Seq<u8>, u64> {
        self.base_entries().union_prefer_right(self.recent_entries())
    }

    /// The size in bytes of the base layer.
    pub closed spec fn base_size(&self) -> nat {
        map_layer_size(self.base)
    }

    /// What a lookup answers once a batch is committed: the batch joins the
    /// recent layer, entries already there winning.
    pub open spec fn committed_contents(&self, batch: Map<Seq<char>, u64>) -> Map<Seq<u8>, u64> {
        if batch.is_empty() {
            self.contents()
        } else {
            self.base_entries().union_prefer_right(
                keyed_by_bytes(batch).union_prefer_right(self.recent_entries()),
            )
        }
    }

    /// The size in bytes of the base layer.
    pub fn base_bytes(&self) -> (r: u64)
        ensures
            r == self.base_size(),
    {
        map_layer_byte_len(&self.base)
    }

    /// A store over the layers read from the given bytes: an error exactly
    /// when fst refuses the bytes of a layer (`fst_accepts`). Layers that fst
    /// wrote always give an intact store holding what they encode; other
    /// bytes that fst accepts give a store that is not intact.
    pub fn from_layers(base: Vec<u8>, recent: Option<Vec<u8>>) -> (r: Result<Self, String>)
        requires
            usize::BITS == 64,
        ensures
            r is Ok <==> fst_accepts(base@) && (recent matches Some(b) ==> fst_accepts(b@)),
            (map_layer_decoded(base@) is Some && (recent matches Some(b) ==> map_layer_decoded(b@) is Some))
                ==> (r matches Ok(s) && s.intact()),
            r matches Ok(s) ==> (s.intact() ==> map_layer_decoded(base@) == Some(s.base_entries())),
            r matches Ok(s) ==> (s.has_recent() <==> recent is Some),
            r matches Ok(s) ==> (s.intact() ==> (recent matches Some(b) ==> map_layer_decoded(b@) == Some(
                s.recent_entries(),
            ))),
            r matches Ok(s) ==> (recent matches Some(b) ==> s.recent_size() == b@.len()),
    {
        let base = match map_layer_from_bytes(base) {
            Ok(m) => m,
            Err(e) => return Err(e),
        };
        let recent = match recent {
            Some(bytes) => match map_layer_from_bytes(bytes) {
                Ok(m) => Some(m),
                Err(e) => return Err(e),
            },
            None => None,
        };
        let r = MapStore { base, recent };
        proof {
            if r.recent is None {
                assert(r.recent_entries() =~= Map::<Seq<u8>, u64>::empty());
            }
        }
        Ok(r)
    }

    /// The bytes of the base layer a fresh store starts from: the base
    /// nullary "0" with value 0.
    pub fn seed_base() -> (r: Vec<u8>)
        ensures
            map_layer_decoded(r@) == Some(map![utf8("0"@) => 0u64]),
    {
        let mut entries: Vec<(Vec<u8>, u64)> = Vec::new();
        entries.push(("0".as_bytes_vec(), 0));
        let ghost listing = byte_pairs(entries@);
        assert(listing =~= seq![(utf8("0"@), 0u64)]);
        let m = match map_layer_from_listing(entries) {
            Ok(m) => m,
            Err(_) => {
                assert(false);
                return Vec::new();
            },
        };
        assert(map_of_listing(listing) =~= map![utf8("0"@) => 0u64]) by {
            assert(listing.drop_last() =~= Seq::<(Seq<u8>, u64)>::empty());
            reveal_with_fuel(map_of_listing, 2);
        }
        map_layer_bytes(&m)
    }

    /// The value recorded for a text, if any: the recent layer's, else the
    /// base layer's.
    pub fn get(&self, key: &str) -> (r: Option<u64>)
        requires
            self.intact(),
        ensures
            r == self.contents().get(utf8(key@)),
    {
        let bytes = key.as_bytes();
        if let Some(recent) = &self.recent {
            if let Some(value) = map_layer_get(recent, bytes) {
                return Some(value);
            }
        }
        map_layer_get(&self.base, bytes)
    }

    /// The entries of both layers counted together (a key in both counts
    /// twice).
    pub fn len(&self) -> (r: usize)
        requires
            self.intact(),
        ensures
            self.base_entries().len() + self.recent_entries().len() <= usize::MAX ==> r
                == self.base_entries().len() + self.recent_entries().len(),
    {
        let recent_len = match &self.recent {
            Some(recent) => map_layer_len(recent),
            None => 0,
        };
        proof {
            if self.recent is None {
                assert(self.recent_entries() =~= Map::<Seq<u8>, u64>::empty());
            }
        }
        map_layer_len(&self.base).wrapping_add(recent_len)
    }

    /// The size in bytes of the recent layer.
    pub fn recent_bytes(&self) -> (r: u64)
        ensures
            r == self.recent_size(),
    {
        match &self.recent {
            Some(recent) => map_layer_byte_len(recent),
            None => 0,
        }
    }

    /// The bytes of the recent layer, if there is one.
    pub fn recent_layer_bytes(&self) -> (r: Option<Vec<u8>>)
        requires
            self.intact(),
        ensures
            r is Some <==> self.has_recent(),
            r matches Some(b) ==> map_layer_decoded(b@) == Some(self.recent_entries()),
    {
        match &self.recent {
            Some(recent) => Some(map_layer_bytes(recent)),
            None => None,
        }
    }

    /// Unions a batch into the recent layer, entries already there winning,
    /// and gives the bytes of the new recent layer to write; an empty batch
    /// changes nothing and gives nothing to write.
    pub fn commit(&mut self, batch: &BTreeMap<String, u64>) -> (r: Option<Vec<u8>>)
        requires
            old(self).intact(),
        ensures
            final(self).intact(),
            final(self).base_entries() == old(self).base_entries(),
            final(self).base_size() == old(self).base_size(),
            final(self).contents() == old(self).committed_contents(text_entries(batch)),
            text_entries(batch).is_empty() ==> r is None && *final(self) == *old(self),
            !text_entries(batch).is_empty() ==> {
                &&& final(self).has_recent()
                &&& final(self).recent_entries() == keyed_by_bytes(text_entries(batch)).union_prefer_right(
                    old(self).recent_entries(),
                )
                &&& r matches Some(b) && map_layer_decoded(b@) == Some(final(self).recent_entries())
            },
            (forall|t: Seq<char>| #[trigger] text_entries(batch).contains_key(t) ==> !old(self).contents().contains_key(
                utf8(t),
            )) ==> final(self).base_entries().len() + final(self).recent_entries().len() == old(
                self,
            ).base_entries().len() + old(self).recent_entries().len() + text_entries(batch).len(),
    {
        let delta = entry_listing(batch);
        if delta.len() == 0 {
            proof {
                lemma_listing_describes(byte_pairs(delta@));
                assert forall|t: Seq<char>| !text_entries(batch).contains_key(t) by {
                    lemma_keyed_by_bytes(text_entries(batch), t);
                    if text_entries(batch).contains_key(t) {
                        let i = choose|i: int|
                            0 <= i < byte_pairs(delta@).len() && #[trigger] byte_pairs(delta@)[i].0
                                == utf8(t);
                    }
                }
                assert(text_entries(batch) =~= Map::<Seq<char>, u64>::empty());
            }
            return None;
        }
        proof {
            lemma_listing_map_finite(byte_pairs(delta@));
            lemma_keyed_len(text_entries(batch));
        }
        let added = match map_layer_from_listing(delta) {
            Ok(m) => m,
            Err(_) => {
                assert(false);
                return None;
            },
        };
        let layer = match &self.recent {
            Some(recent) => {
                let merged = union_listing(recent, &added, false);
                proof {
                    lemma_listing_map_finite(byte_pairs(merged@));
                }
                match map_layer_from_listing(merged) {
                    Ok(m) => m,
                    Err(_) => {
                        assert(false);
                        return None;
                    },
                }
            },
            None => {
                assert(map_layer_entries(added).union_prefer_right(self.recent_entries()) =~= map_layer_entries(
                    added,
                ));
                added
            },
        };
        let bytes = map_layer_bytes(&layer);
        self.recent = Some(layer);
        proof {
            let kb = keyed_by_bytes(text_entries(batch));
            let old_recent = old(self).recent_entries();
            if forall|t: Seq<char>| #[trigger] text_entries(batch).contains_key(t) ==> !old(self).contents().contains_key(
                utf8(t),
            ) {
                assert(kb.dom().disjoint(old_recent.dom())) by {
                    assert forall|k: Seq<u8>| kb.dom().contains(k) implies !old_recent.dom().contains(k) by {
                        let t = vstd::utf8::decode_utf8(k);
                        assert(text_entries(batch).contains_key(t));
                        assert(utf8(t) == k);
                    }
                }
                vstd::map_lib::lemma_disjoint_union_size(kb, old_recent);
            }
            assert(!text_entries(batch).is_empty()) by {
                lemma_listing_describes(byte_pairs(delta@));
                let k = byte_pairs(delta@)[0].0;
                assert(keyed_by_bytes(text_entries(batch)).contains_key(k));
                let t = vstd::utf8::decode_utf8(k);
                assert(text_entries(batch).contains_key(t));
            }
        }
        Some(bytes)
    }

    /// Folds the recent layer into the base once it is larger than the
    /// threshold, and gives the bytes of the new base layer to write (the
    /// recent layer's file is then removed); otherwise changes nothing.
    pub fn maybe_compact(&mut self, threshold_bytes: u64) -> (r: Option<Vec<u8>>)
        requires
            old(self).intact(),
        ensures
            final(self).intact(),
            final(self).contents() == old(self).contents(),
            r is Some <==> old(self).recent_size() > threshold_bytes,
            (old(self).has_recent() && old(self).recent_size() > threshold_bytes) ==> {
                &&& !final(self).has_recent()
                &&& final(self).recent_size() == 0
                &&& final(self).recent_entries() == Map::<Seq<u8>, u64>::empty()
                &&& final(self).base_entries() == old(self).contents()
                &&& r matches Some(b) && map_layer_decoded(b@) == Some(final(self).base_entries())
            },
            !(old(self).has_recent() && old(self).recent_size() > threshold_bytes) ==> r is None
                && *final(self) == *old(self),
    {
        let size = self.recent_bytes();
        match &self.recent {
            Some(recent) => {
                if size <= threshold_bytes {
                    return None;
                }
                let merged = union_listing(recent, &self.base, false);
                let layer = match map_layer_from_listing(merged) {
                    Ok(m) => m,
                    Err(_) => {
                        assert(false);
                        return None;
                    },
                };
                let bytes = map_layer_bytes(&layer);
                let ghost before = self.contents();
                proof {
                    lemma_listing_map_finite(byte_pairs(merged@));
                }
                self.base = layer;
                self.recent = None;
                assert(self.contents() =~= before);
                assert(self.recent_entries() =~= Map::<Seq<u8>, u64>::empty());
                Some(bytes)
            },
            None => None,
        }
    }

    /// Every entry a lookup can answer, as bytes, in increasing order of key.
    fn merged_entries(&self) -> (r: Vec<(Vec<u8>, u64)>)
        requires
            self.intact(),
        ensures
            lists_map(byte_pairs(r@), self.contents()),
    {
        let merged = match &self.recent {
            Some(recent) => union_listing(recent, &self.base, false),
            None => {
                let base_listing = map_layer_listing(&self.base);
                proof {
                    let b = byte_pairs(base_listing@);
                    lemma_listing_describes(b);
                    lemma_listed_map_unique(b, map_of_listing(b), self.base_entries());
                    assert(self.contents() =~= self.base_entries());
                }
                base_listing
            },
        };
        proof {
            lemma_listing_describes(byte_pairs(merged@));
        }
        merged
    }

    /// Every entry a lookup can answer, in increasing order of key, with the
    /// value a lookup gives; fails on a key that is not UTF-8.
    pub fn listing(&self) -> (r: Result<Vec<(String, u64)>, String>)
        requires
            self.intact(),
        ensures
            r is Ok <==> forall|k: Seq<u8>| #[trigger] self.contents().contains_key(k) ==> vstd::utf8::valid_utf8(k),
            r matches Ok(v) ==> lists_map(
                views_of_pairs(v@).map_values(|p: (Seq<char>, u64)| (utf8(p.0), p.1)),
                self.contents(),
            ),
    {
        let merged = self.merged_entries();
        let ghost mb = byte_pairs(merged@);
        let mut out: Vec<(String, u64)> = Vec::new();
        let mut i: usize = 0;
        while i < merged.len()
            invariant
                mb == byte_pairs(merged@),
                lists_map(mb, self.contents()),
                0 <= i <= merged.len(),
                out.len() == i,
                forall|t: int| 0 <= t < i ==> utf8(#[trigger] out@[t].0@) == mb[t].0 && out@[t].1
                    == mb[t].1,
                forall|t: int| 0 <= t < i ==> vstd::utf8::valid_utf8(#[trigger] mb[t].0),
            decreases merged.len() - i,
        {
            let key = match text_from_utf8(merged[i].0.clone()) {
                Ok(k) => k,
                Err(e) => {
                    proof {
                        assert(mb[i as int].0 == merged@[i as int].0@);
                        assert(self.contents().contains_key(mb[i as int].0));
                    }
                    return Err(e);
                },
            };
            assert(mb[i as int].0 == merged@[i as int].0@);
            out.push((key, merged[i].1));
            i = i + 1;
        }
        let ghost w = views_of_pairs(out@).map_values(|p: (Seq<char>, u64)| (utf8(p.0), p.1));
        assert(w =~= mb);
        assert forall|k: Seq<u8>| #[trigger] self.contents().contains_key(k) implies vstd::utf8::valid_utf8(k) by {
            let t = choose|t: int| 0 <= t < mb.len() && #[trigger] mb[t].0 == k;
        }
        Ok(out)
    }

    /// Hands the entries to `callback` in increasing order of key, key as
    /// text, until it answers `false` or the entries run out; fails on
    /// reaching a key that is not UTF-8.
    pub fn for_each_while<F: FnMut(&str, u64) -> bool>(&self, mut callback: F) -> (r: Result<(), String>)
        requires
            self.intact(),
            forall|k: &str, v: u64| call_requires(callback, (k, v)),
        ensures
            (forall|k: Seq<u8>| #[trigger] self.contents().contains_key(k) ==> vstd::utf8::valid_utf8(k))
                ==> r is Ok,
            r is Err ==> exists|l: Seq<(Seq<u8>, u64)>, j: int|
                lists_map(l, self.contents()) && 0 <= j < l.len() && !vstd::utf8::valid_utf8(#[trigger] l[j].0)
                && forall|t: int| 0 <= t < j ==> handed_over::<F>(#[trigger] l[t], true),
            r is Ok ==> exists|l: Seq<(Seq<u8>, u64)>, j: int|
                lists_map(l, self.contents()) && 0 <= j <= l.len() && #[trigger] stops_at::<F>(l, j)
                && forall|t: int| 0 <= t < j ==> handed_over::<F>(#[trigger] l[t], true),
    {
        let merged = self.merged_entries();
        let ghost mb = byte_pairs(merged@);
        let mut i: usize = 0;
        while i < merged.len()
            invariant
                mb == byte_pairs(merged@),
                lists_map(mb, self.contents()),
                0 <= i <= merged.len(),
                forall|k: &str, v: u64| call_requires(callback, (k, v)),
                forall|t: int| 0 <= t < i ==> handed_over::<F>(#[trigger] mb[t], true),
            decreases merged.len() - i,
        {
            proof {
                assert(mb[i as int].0 == merged@[i as int].0@);
                assert(mb[i as int].1 == merged@[i as int].1);
            }
            let key = match text_from_utf8(merged[i].0.clone()) {
                Ok(k) => k,
                Err(e) => {
                    proof {
                        assert(self.contents().contains_key(mb[i as int].0));
                    }
                    return Err(e);
                },
            };
            let ghost g0 = callback;
            let ks: &str = key.as_str();
            let answer = callback(ks, merged[i].1);
            proof {
                assert(call_ensures(g0, (ks, mb[i as int].1), answer));
                assert(handed_over::<F>(mb[i as int], answer));
            }
            if !answer {
                proof {
                    assert(stops_at::<F>(mb, i as int));
                }
                return Ok(());
            }
            i = i + 1;
        }
        proof {
            assert(stops_at::<F>(mb, mb.len() as int));
        }
        Ok(())
    }
}

/// Some state of a callback, handed the key of `e` as text and its value,
/// may answer `b`.
pub open spec fn handed_over<F: FnMut(&str, u64) -> bool>(e: (Seq<u8>, u64), b: bool) -> bool {
    exists|g: F, k: &str| utf8(k@) == e.0 && #[trigger] call_ensures(g, (k, e.1), b)
}

/// A walk over `l` that answers `true` before position `j` ends there: the
/// entries run out at `j`, or the callback answered `false` at `j`.
pub open spec fn stops_at<F: FnMut(&str, u64) -> bool>(l: Seq<(Seq<u8>, u64)>, j: int) -> bool {
    j == l.len() || handed_over::<F>(l[j], false)
}

/// A two-layer set of texts, laid out as `MapStore`: a base layer and a
/// recent layer that commits are unioned into.
pub struct SetStore {
    base: fst::Set<Vec<u8>>,
    recent: Option<fst::Set<Vec<u8>>>,
}

impl SetStore {
    /// The keys of the base layer.
    pub closed spec fn base_keys(&self) -> Set<Seq<u8>> {
        set_layer_keys(self.base)
    }

    /// The keys of the recent layer (none when there is no recent layer).
    pub closed spec fn recent_keys(&self) -> Set<Seq<u8>> {
        match self.recent {
            Some(r) => set_layer_keys(r),
            None => Set::empty(),
        }
    }

    /// Whether there is a recent layer.
    pub closed spec fn has_recent(&self) -> bool {
        self.recent is Some
    }

    /// The size in bytes of the recent layer (zero when there is none).
    pub closed spec fn recent_size(&self) -> nat {
        match self.recent {
            Some(r) => set_layer_size(r),
            None => 0,
        }
    }

    /// Whether both layers are FSTs that fst wrote, each holding finitely
    /// many keys; the reads of a store rely on it.
    pub closed spec fn intact(&self) -> bool {
        &&& set_layer_intact(self.base)
        &&& self.base_keys().finite()
        &&& self.recent matches Some(r) ==> set_layer_intact(r)
        &&& self.recent_keys().finite()
    }

    /// A store without a recent layer has a recent layer of no size and no
    /// keys.
    pub proof fn lemma_without_recent(&self)
        ensures
            !self.has_recent() ==> self.recent_size() == 0 && self.recent_keys() == Set::<
                Seq<u8>,
            >::empty(),
    {
        if self.recent is None {
            assert(self.recent_keys() =~= Set::<Seq<u8>>::empty());
        }
    }

    /// The keys of either layer.
    pub open spec fn contents(&self) -> Set<Seq<u8>> {
        self.base_keys() + self.recent_keys()
    }

    /// The size in bytes of the base layer.
    pub closed spec fn base_size(&self) -> nat {
        set_layer_size(self.base)
    }

    /// The size in bytes of the base layer.
    pub fn base_bytes(&self) -> (r: u64)
        ensures
            r == self.base_size(),
    {
        set_layer_byte_len(&self.base)
    }

    /// A store over the layers read from the given bytes, as for `MapStore`:
    /// an error exactly when fst refuses the bytes of a layer; layers that
    /// fst wrote always give an intact store holding the keys they encode.
    pub fn from_layers(base: Vec<u8>, recent: Option<Vec<u8>>) -> (r: Result<Self, String>)
        requires
            usize::BITS == 64,
        ensures
            r is Ok <==> fst_accepts(base@) && (recent matches Some(b) ==> fst_accepts(b@)),
            (set_layer_decoded(base@) is Some && (recent matches Some(b) ==> set_layer_decoded(b@) is Some))
                ==> (r matches Ok(s) && s.intact()),
            r matches Ok(s) ==> (s.intact() ==> set_layer_decoded(base@) == Some(s.base_keys())),
            r matches Ok(s) ==> (s.has_recent() <==> recent is Some),
            r matches Ok(s) ==> (s.intact() ==> (recent matches Some(b) ==> set_layer_decoded(b@) == Some(
                s.recent_keys(),
            ))),
            r matches Ok(s) ==> (recent matches Some(b) ==> s.recent_size() == b@.len()),
    {
        let base = match set_layer_from_bytes(base) {
            Ok(m) => m,
            Err(e) => return Err(e),
        };
        let recent = match recent {
            Some(bytes) => match set_layer_from_bytes(bytes) {
                Ok(m) => Some(m),
                Err(e) => return Err(e),
            },
            None => None,
        };
        let r = SetStore { base, recent };
        proof {
            if r.recent is None {
                assert(r.recent_keys() =~= Set::<Seq<u8>>::empty());
            }
        }
        Ok(r)
    }

    /// The bytes of the base layer a fresh store starts from: no keys.
    pub fn seed_base() -> (r: Vec<u8>)
        ensures
            set_layer_decoded(r@) == Some(Set::<Seq<u8>>::empty()),
    {
        let keys: Vec<Vec<u8>> = Vec::new();
        assert(byte_keys(keys@) =~= Seq::<Seq<u8>>::empty());
        let s = match set_layer_from_listing(keys) {
            Ok(s) => s,
            Err(_) => {
                assert(false);
                return Vec::new();
            },
        };
        set_layer_bytes(&s)
    }

    /// Whether either layer holds the text.
    pub fn contains(&self, key: &str) -> (r: bool)
        requires
            self.intact(),
        ensures
            r == self.contents().contains(utf8(key@)),
    {
        let bytes = key.as_bytes();
        if let Some(recent) = &self.recent {
            if set_layer_contains(recent, bytes) {
                return true;
            }
        }
        set_layer_contains(&self.base, bytes)
    }

    /// The keys of both layers counted together (a key in both counts twice).
    pub fn len(&self) -> (r: usize)
        requires
            self.intact(),
        ensures
            self.base_keys().len() + self.recent_keys().len() <= usize::MAX ==> r
                == self.base_keys().len() + self.recent_keys().len(),
    {
        let recent_len = match &self.recent {
            Some(recent) => set_layer_len(recent),
            None => 0,
        };
        proof {
            if self.recent is None {
                assert(self.recent_keys() =~= Set::<Seq<u8>>::empty());
            }
        }
        set_layer_len(&self.base).wrapping_add(recent_len)
    }

    /// The size in bytes of the recent layer.
    pub fn recent_bytes(&self) -> (r: u64)
        ensures
            r == self.recent_size(),
    {
        match &self.recent {
            Some(recent) => set_layer_byte_len(recent),
            None => 0,
        }
    }

    /// Unions a batch into the recent layer and gives the bytes of the new
    /// recent layer to write; an empty batch changes nothing and gives
    /// nothing to write.
    pub fn commit(&mut self, batch: &BTreeSet<String>) -> (r: Option<Vec<u8>>)
        requires
            old(self).intact(),
        ensures
            final(self).intact(),
            final(self).base_keys() == old(self).base_keys(),
            final(self).base_size() == old(self).base_size(),
            final(self).contents() == old(self).contents() + bytes_of_texts(texts(batch)),
            texts(batch).is_empty() ==> r is None && *final(self) == *old(self),
            !texts(batch).is_empty() ==> {
                &&& final(self).has_recent()
                &&& final(self).recent_keys() == old(self).recent_keys() + bytes_of_texts(texts(batch))
                &&& r matches Some(b) && set_layer_decoded(b@) == Some(final(self).recent_keys())
            },
            (forall|t: Seq<char>| #[trigger] texts(batch).contains(t) ==> !old(self).contents().contains(utf8(t)))
                ==> final(self).base_keys().len() + final(self).recent_keys().len() == old(self).base_keys().len()
                + old(self).recent_keys().len() + texts(batch).len(),
    {
        let delta = key_listing(batch);
        if delta.len() == 0 {
            proof {
                lemma_key_listing_describes(byte_keys(delta@));
                assert forall|t: Seq<char>| !texts(batch).contains(t) by {
                    lemma_bytes_of_texts(texts(batch), t);
                    if texts(batch).contains(t) {
                        let i = choose|i: int|
                            0 <= i < byte_keys(delta@).len() && #[trigger] byte_keys(delta@)[i] == utf8(
                                t,
                            );
                    }
                }
                assert(texts(batch) =~= Set::<Seq<char>>::empty());
            }
            return None;
        }
        proof {
            lemma_listing_set_finite(byte_keys(delta@));
            lemma_bytes_of_texts_len(texts(batch));
        }
        let added = match set_layer_from_listing(delta) {
            Ok(m) => m,
            Err(_) => {
                assert(false);
                return None;
            },
        };
        proof {
            lemma_listing_set_finite(byte_keys(delta@));
        }
        let layer = match &self.recent {
            Some(recent) => match set_layer_union(recent, &added) {
                Ok(m) => m,
                Err(_) => {
                    assert(false);
                    return None;
                },
            },
            None => {
                assert(self.recent_keys() + set_layer_keys(added) =~= set_layer_keys(added));
                added
            },
        };
        let bytes = set_layer_bytes(&layer);
        self.recent = Some(layer);
        proof {
            let kb = bytes_of_texts(texts(batch));
            let old_recent = old(self).recent_keys();
            if forall|t: Seq<char>| #[trigger] texts(batch).contains(t) ==> !old(self).contents().contains(utf8(t)) {
                assert(old_recent.disjoint(kb)) by {
                    assert forall|k: Seq<u8>| kb.contains(k) implies !old_recent.contains(k) by {
                        let t = vstd::utf8::decode_utf8(k);
                        assert(texts(batch).contains(t));
                        assert(utf8(t) == k);
                    }
                }
                vstd::set_lib::lemma_set_disjoint_lens(old_recent, kb);
            }
            assert(!texts(batch).is_empty()) by {
                lemma_key_listing_describes(byte_keys(delta@));
                let k = byte_keys(delta@)[0];
                assert(bytes_of_texts(texts(batch)).contains(k));
                let t = vstd::utf8::decode_utf8(k);
                assert(texts(batch).contains(t));
            }
        }
        Some(bytes)
    }

    /// Folds the recent layer into the base once it is larger than the
    /// threshold, and gives the bytes of the new base layer to write (the
    /// recent layer's file is then removed); otherwise changes nothing.
    pub fn maybe_compact(&mut self, threshold_bytes: u64) -> (r: Option<Vec<u8>>)
        requires
            old(self).intact(),
        ensures
            final(self).intact(),
            final(self).contents() == old(self).contents(),
            r is Some <==> old(self).recent_size() > threshold_bytes,
            (old(self).has_recent() && old(self).recent_size() > threshold_bytes) ==> {
                &&& !final(self).has_recent()
                &&& final(self).recent_size() == 0
                &&& final(self).recent_keys() == Set::<Seq<u8>>::empty()
                &&& final(self).base_keys() == old(self).contents()
                &&& r matches Some(b) && set_layer_decoded(b@) == Some(final(self).base_keys())
            },
            !(old(self).has_recent() && old(self).recent_size() > threshold_bytes) ==> r is None
                && *final(self) == *old(self),
    {
        let size = self.recent_bytes();
        match &self.recent {
            Some(recent) => {
                if size <= threshold_bytes {
                    return None;
                }
                let layer = match set_layer_union(&self.base, recent) {
                    Ok(m) => m,
                    Err(_) => {
                        assert(false);
                        return None;
                    },
                };
                let bytes = set_layer_bytes(&layer);
                let ghost before = self.contents();
                self.base = layer;
                self.recent = None;
                assert(self.contents() =~= before);
                assert(self.recent_keys() =~= Set::<Seq<u8>>::empty());
                Some(bytes)
            },
            None => None,
        }
    }
}

/// `b` appended to the path `a` as `PathBuf::push` appends it on Unix: an
/// absolute `b` replaces `a`, and a separator is put between them unless `a`
/// is empty or already ends in one.
pub open spec fn join_path(a: Seq<char>, b: Seq<char>) -> Seq<char> {
    if b.len() > 0 && b[0] == '/' {
        b
    } else if a.len() == 0 {
        b
    } else if a.last() == '/' {
        a + b
    } else {
        a + seq!['/'] + b
    }
}

/// The directory of the frontiers of one kind: `<root>/state/<base>/<kind>`.
pub open spec fn frontier_dir(root: Seq<char>, base: Seq<char>, kind: Seq<char>) -> Seq<char> {
    join_path(join_path(join_path(root, "state"@), base), kind)
}

/// The file of one frontier: `<dir>/<index><extension>`.
pub open spec fn frontier_file(
    root: Seq<char>,
    base: Seq<char>,
    kind: Seq<char>,
    index: u64,
    extension: Seq<char>,
) -> Seq<char> {
    join_path(frontier_dir(root, base, kind), decimal(index as nat) + extension)
}

/// The frontier index a file name names: the number before `.fst`.
pub open spec fn index_of_name_spec(name: Seq<char>) -> Option<u64> {
    if name.len() >= 4 && name.skip(name.len() - 4) == ".fst"@ {
        match parse_u64_spec(name.take(name.len() - 4)) {
            Ok(v) => Some(v),
            Err(_) => None,
        }
    } else {
        None
    }
}

/// The indices the file names name, in the order of the names.
pub open spec fn named_indices(names: Seq<Seq<char>>) -> Seq<u64>
    decreases names.len(),
{
    if names.len() == 0 {
        Seq::empty()
    } else {
        match index_of_name_spec(names.last()) {
            Some(v) => named_indices(names.drop_last()).push(v),
            None => named_indices(names.drop_last()),
        }
    }
}

pub open spec fn ascending(s: Seq<u64>) -> bool {
    forall|i: int, j: int| 0 <= i <= j < s.len() ==> s[i] <= s[j]
}

/// Appends `b` to the path `a` (see `join_path`).
pub fn join_path_text(a: &str, b: &str) -> (r: String)
    ensures
        r@ == join_path(a@, b@),
{
    let bv = crate::form::chars_of(b);
    if bv.len() > 0 && bv[0] == '/' {
        return b.to_string();
    }
    let av = crate::form::chars_of(a);
    let mut r = a.to_string();
    if av.len() == 0 {
        return b.to_string();
    }
    if av[av.len() - 1] != '/' {
        r.append("/");
        proof {
            reveal_strlit("/");
        }
    }
    r.append(b);
    r
}

/// Frontiers: per-depth (and per-length) sets of forms, each an FST set in
/// a file of its own that is only ever appended to by union.
pub struct Frontier;

impl Frontier {
    /// The directory of the frontiers of one kind.
    pub fn dir(project_root: &str, base: &str, kind: &str) -> (r: String)
        ensures
            r@ == frontier_dir(project_root@, base@, kind@),
    {
        let state = join_path_text(project_root, "state");
        proof {
            reveal_strlit("state");
        }
        let with_base = join_path_text(state.as_str(), base);
        join_path_text(with_base.as_str(), kind)
    }

    /// The FST file of one frontier.
    pub fn fst_path(project_root: &str, base: &str, kind: &str, index: u64) -> (r: String)
        ensures
            r@ == frontier_file(project_root@, base@, kind@, index, ".fst"@),
    {
        let dir = Self::dir(project_root, base, kind);
        let mut name = String::new();
        push_decimal(&mut name, index);
        name.append(".fst");
        proof {
            reveal_strlit(".fst");
            assert(Seq::<char>::empty() + decimal(index as nat) =~= decimal(index as nat));
        }
        join_path_text(dir.as_str(), name.as_str())
    }

    /// The plain-text file an older layout kept one frontier in.
    pub fn txt_path(project_root: &str, base: &str, kind: &str, index: u64) -> (r: String)
        ensures
            r@ == frontier_file(project_root@, base@, kind@, index, ".txt"@),
    {
        let dir = Self::dir(project_root, base, kind);
        let mut name = String::new();
        push_decimal(&mut name, index);
        name.append(".txt");
        proof {
            reveal_strlit(".txt");
            assert(Seq::<char>::empty() + decimal(index as nat) =~= decimal(index as nat));
        }
        join_path_text(dir.as_str(), name.as_str())
    }

    /// The index a frontier file's name gives, if it names one.
    pub fn index_of_name(name: &str) -> (r: Option<u64>)
        ensures
            r == index_of_name_spec(name@),
    {
        let v = crate::form::chars_of(name);
        let n = v.len();
        proof {
            reveal_strlit(".fst");
        }
        if n < 4 || v[n - 4] != '.' || v[n - 3] != 'f' || v[n - 2] != 's' || v[n - 1] != 't' {
            proof {
                if n >= 4 && name@.skip(n - 4) == ".fst"@ {
                    assert(name@.skip(n - 4)[0] == '.');
                    assert(name@.skip(n - 4)[1] == 'f');
                    assert(name@.skip(n - 4)[2] == 's');
                    assert(name@.skip(n - 4)[3] == 't');
                }
            }
            return None;
        }
        assert(name@.skip(n - 4) =~= ".fst"@);
        let stem = crate::text::text_from_chars(&v.as_slice()[0..n - 4]);
        assert(stem@ =~= name@.take(n - 4));
        match parse_u64(stem.as_str()) {
            Ok(value) => Some(value),
            Err(_) => None,
        }
    }

    /// The indices the file names of a frontier directory name, in
    /// increasing order.
    pub fn indices(names: &Vec<String>) -> (r: Vec<u64>)
        ensures
            ascending(r@),
            r@.to_multiset() == named_indices(names@.map_values(|n: String| n@)).to_multiset(),
    {
        let ghost ns = names@.map_values(|n: String| n@);
        let mut r: Vec<u64> = Vec::new();
        let mut k: usize = 0;
        proof {
            broadcast use vstd::seq_lib::group_to_multiset_ensures;
            assert(ns.take(0) =~= Seq::<Seq<char>>::empty());
            assert(r@.to_multiset() =~= named_indices(ns.take(0)).to_multiset());
        }
        while k < names.len()
            invariant
                ns == names@.map_values(|n: String| n@),
                0 <= k <= names.len(),
                ascending(r@),
                r@.to_multiset() == named_indices(ns.take(k as int)).to_multiset(),
            decreases names.len() - k,
        {
            proof {
                broadcast use vstd::seq_lib::group_to_multiset_ensures;
                assert(ns.take(k + 1).drop_last() =~= ns.take(k as int));
            }
            match Self::index_of_name(names[k].as_str()) {
                Some(value) => {
                    let mut p: usize = 0;
                    while p < r.len() && r[p] <= value
                        invariant
                            0 <= p <= r.len(),
                            forall|q: int| 0 <= q < p ==> #[trigger] r@[q] <= value,
                        decreases r.len() - p,
                    {
                        p = p + 1;
                    }
                    let ghost before = r@;
                    r.insert(p, value);
                    proof {
                        broadcast use vstd::seq_lib::group_to_multiset_ensures;
                        assert(r@.remove(p as int) =~= before);
                        assert(r@.to_multiset().remove(value) =~= before.to_multiset());
                        assert(r@.to_multiset().count(value) > 0) by {
                            assert(r@.contains(value)) by {
                                assert(r@[p as int] == value);
                            }
                        }
                        assert(r@.to_multiset() =~= before.to_multiset().insert(value));
                        assert(named_indices(ns.take(k + 1)) =~= named_indices(ns.take(k as int)).push(value));
                        assert forall|i: int, j: int| 0 <= i <= j < r@.len() implies r@[i] <= r@[j] by {
                            if i < p && j > p {
                                assert(before[i] <= value);
                            }
                        }
                    }
                },
                None => {
                    assert(named_indices(ns.take(k + 1)) =~= named_indices(ns.take(k as int)));
                },
            }
            k = k + 1;
        }
        assert(ns.take(names.len() as int) =~= ns);
        r
    }

    /// The forms of a frontier read from its FST file (a layer fst wrote),
    /// in increasing order; an error when one of them is not UTF-8.
    pub fn items_of_layer(layer: &SetLayer) -> (r: Result<Vec<String>, String>)
        requires
            layer.intact(),
        ensures
            r is Ok <==> forall|k: Seq<u8>| #[trigger] layer.keys().contains(k) ==> vstd::utf8::valid_utf8(k),
            r matches Ok(v) ==> lists_set(v@.map_values(|t: String| utf8(t@)), layer.keys()),
    {
        proof {
            lemma_set_layer(layer);
        }
        let keys = set_layer_listing(&layer.set);
        let ghost held = layer.keys();
        let ghost kb = byte_keys(keys@);
        let mut out: Vec<String> = Vec::new();
        let mut i: usize = 0;
        while i < keys.len()
            invariant
                kb == byte_keys(keys@),
                held == layer.keys(),
                lists_set(kb, held),
                0 <= i <= keys.len(),
                out.len() == i,
                forall|t: int| 0 <= t < i ==> utf8(#[trigger] out@[t]@) == kb[t],
                forall|t: int| 0 <= t < i ==> vstd::utf8::valid_utf8(#[trigger] kb[t]),
            decreases keys.len() - i,
        {
            assert(kb[i as int] == keys@[i as int]@);
            let key = keys[i].clone();
            assert(key@ == kb[i as int]);
            let text = match text_from_utf8(key) {
                Ok(t) => t,
                Err(e) => {
                    proof {
                        assert(held.contains(kb[i as int]));
                        assert(!vstd::utf8::valid_utf8(kb[i as int]));
                    }
                    return Err(e);
                },
            };
            out.push(text);
            i = i + 1;
        }
        assert(out@.map_values(|t: String| utf8(t@)) =~= kb);
        assert forall|k: Seq<u8>| #[trigger] held.contains(k) implies vstd::utf8::valid_utf8(k) by {
            let t = choose|t: int| 0 <= t < kb.len() && #[trigger] kb[t] == k;
        }
        Ok(out)
    }

    /// The forms every exploration starts from: the nullary `0` and the
    /// unary `^(*)`, each seeding the depth-0 frontier of its kind.
    pub fn seeds() -> (r: Vec<(String, String)>)
        ensures
            r@.len() == 2,
            r@[0].0@ == "nullaries"@ && r@[0].1@ == "0"@,
            r@[1].0@ == "unaries"@ && r@[1].1@ == "^(*)"@,
    {
        let mut r: Vec<(String, String)> = Vec::new();
        r.push(("nullaries".to_string(), "0".to_string()));
        r.push(("unaries".to_string(), "^(*)".to_string()));
        r
    }

    /// Appends a batch to a frontier by union with what its file already holds
    /// (nothing when there is no file; a layer fst wrote), giving the bytes
    /// to write; appending the same batch again changes nothing. An empty
    /// batch gives nothing to write.
    pub fn append(existing: Option<&SetLayer>, batch: &BTreeSet<String>) -> (r: Option<Vec<u8>>)
        requires
            existing matches Some(l) ==> l.intact(),
        ensures
            texts(batch).is_empty() ==> r is None,
            !texts(batch).is_empty() && existing is None ==> (r matches Some(b) && set_layer_decoded(b@) == Some(
                bytes_of_texts(texts(batch)),
            )),
            !texts(batch).is_empty() ==> (existing matches Some(l) ==> (r matches Some(b) && set_layer_decoded(
                b@,
            ) == Some(l.keys() + bytes_of_texts(texts(batch))))),
    {
        let delta = key_listing(batch);
        if delta.len() == 0 {
            proof {
                lemma_key_listing_describes(byte_keys(delta@));
                assert forall|t: Seq<char>| !texts(batch).contains(t) by {
                    lemma_bytes_of_texts(texts(batch), t);
                    if texts(batch).contains(t) {
                        let i = choose|i: int|
                            0 <= i < byte_keys(delta@).len() && #[trigger] byte_keys(delta@)[i] == utf8(
                                t,
                            );
                    }
                }
                assert(texts(batch) =~= Set::<Seq<char>>::empty());
            }
            return None;
        }
        proof {
            assert(!texts(batch).is_empty()) by {
                lemma_key_listing_describes(byte_keys(delta@));
                let k = byte_keys(delta@)[0];
                assert(bytes_of_texts(texts(batch)).contains(k));
                let t = vstd::utf8::decode_utf8(k);
                assert(texts(batch).contains(t));
            }
        }
        let added = match set_layer_from_listing(delta) {
            Ok(s) => s,
            Err(_) => {
                assert(false);
                return None;
            },
        };
        let layer = match existing {
            Some(old) => {
                proof {
                    lemma_set_layer(old);
                }
                match set_layer_union(&old.set, &added) {
                    Ok(l) => l,
                    Err(_) => {
                        assert(false);
                        return None;
                    },
                }
            },
            None => added,
        };
        Some(set_layer_bytes(&layer))
    }

    /// The forms an older plain-text frontier file lists: its lines, trimmed,
    /// blank ones left out.
    pub fn items_of_text(contents: &str) -> (r: BTreeSet<String>)
        ensures
            forall|t: Seq<char>| texts(&r).contains(t) <==> nonblank_trimmed_lines(contents@).contains(t),
    {
        let lines = lines_of(contents);
        let ghost ls = lines@.map_values(|l: String| l@);
        let mut items = crate::collections::empty_texts();
        let mut k: usize = 0;
        while k < lines.len()
            invariant
                ls == lines@.map_values(|l: String| l@),
                ls == crate::text::lines_spec(contents@),
                0 <= k <= lines.len(),
                forall|t: Seq<char>| texts(&items).contains(t) <==> (exists|q: int|
                    0 <= q < k && #[trigger] trim_spec(ls[q]) == t && t.len() > 0),
            decreases lines.len() - k,
        {
            let v = crate::form::chars_of(lines[k].as_str());
            let trimmed = crate::text::trimmed_piece(&v, 0, v.len());
            assert(v@.subrange(0, v.len() as int) =~= ls[k as int]);
            assert(trim_spec(ls[k as int]) == trimmed@);
            let ghost before = texts(&items);
            if !trimmed.as_str().is_empty() {
                proof {
                    crate::text::lemma_utf8_empty(trimmed@);
                }
                let ghost tv = trimmed@;
                crate::collections::texts_insert(&mut items, trimmed);
                assert forall|t: Seq<char>| texts(&items).contains(t) <==> (exists|q: int|
                    0 <= q < k + 1 && #[trigger] trim_spec(ls[q]) == t && t.len() > 0) by {
                    if t == tv {
                        assert(trim_spec(ls[k as int]) == t);
                    }
                }
            } else {
                proof {
                    crate::text::lemma_utf8_empty(trimmed@);
                }
                assert(trimmed@.len() == 0);
                assert forall|t: Seq<char>| texts(&items).contains(t) <==> (exists|q: int|
                    0 <= q < k + 1 && #[trigger] trim_spec(ls[q]) == t && t.len() > 0) by {
                    if exists|q: int| 0 <= q < k + 1 && #[trigger] trim_spec(ls[q]) == t && t.len() > 0 {
                        let q = choose|q: int| 0 <= q < k + 1 && #[trigger] trim_spec(ls[q]) == t && t.len() > 0;
                        assert(q < k);
                    }
                }
            }
            k = k + 1;
        }
        proof {
            let trimmed_all = ls.map_values(|l: Seq<char>| trim_spec(l));
            assert forall|t: Seq<char>| texts(&items).contains(t) <==> nonblank_trimmed_lines(
                contents@,
            ).contains(t) by {
                let f = |l: Seq<char>| l.len() > 0;
                assert(nonblank_trimmed_lines(contents@) == trimmed_all.filter(f));
                if texts(&items).contains(t) {
                    let q = choose|q: int| 0 <= q < lines.len() && #[trigger] trim_spec(ls[q]) == t && t.len() > 0;
                    assert(trimmed_all[q] == t);
                    trimmed_all.lemma_filter_contains(f, q);
                }
                if nonblank_trimmed_lines(contents@).contains(t) {
                    let fl = trimmed_all.filter(f);
                    let j = choose|j: int| 0 <= j < fl.len() && fl[j] == t;
                    trimmed_all.lemma_filter_pred(f, j);
                    trimmed_all.lemma_filter_contains_rev(f, t);
                    let i = choose|i: int| 0 <= i < trimmed_all.len() && trimmed_all[i] == t;
                    assert(trim_spec(ls[i]) == t);
                }
            }
        }
        items
    }
}

/// Reading after a commit: a text of the batch is then found with the value
/// the recent layer already had for it, if any, else with the batch's value;
/// any other text is found as before.
pub proof fn law_commit_then_get(store: MapStore, batch: Map<Seq<char>, u64>, t: Seq<char>)
    ensures
        batch.contains_key(t) ==> store.committed_contents(batch).get(utf8(t)) == (
        if store.recent_entries().contains_key(utf8(t)) {
            Some(store.recent_entries()[utf8(t)])
        } else {
            Some(batch[t])
        }),
        !batch.contains_key(t) ==> store.committed_contents(batch).get(utf8(t)) == store.contents().get(
            utf8(t),
        ),
{
    lemma_keyed_by_bytes(batch, t);
    if batch.contains_key(t) {
        assert(!batch.is_empty()) by {
            assert(batch.dom().contains(t));
        }
    }
}

/// Reading after a commit of a set store: a text is then held exactly when
/// it was held before or the batch holds it.
pub proof fn law_set_commit_then_contains(before: Set<Seq<u8>>, batch: Set<Seq<char>>, t: Seq<char>)
    ensures
        (before + bytes_of_texts(batch)).contains(utf8(t)) == (before.contains(utf8(t)) || batch.contains(t)),
{
    lemma_bytes_of_texts(batch, t);
}

/// Appending to a frontier is idempotent: appending a batch again to what
/// an append of it gave changes nothing, so an append replayed after a crash
/// adds no duplicate; and appends in either order give the same frontier.
pub proof fn law_appends_are_idempotent_and_commute(
    existing: Set<Seq<u8>>,
    batch: Set<Seq<char>>,
    other: Set<Seq<char>>,
)
    ensures
        (existing + bytes_of_texts(batch)) + bytes_of_texts(batch) == existing + bytes_of_texts(batch),
        (existing + bytes_of_texts(batch)) + bytes_of_texts(other) == (existing + bytes_of_texts(other))
            + bytes_of_texts(batch),
{
    assert((existing + bytes_of_texts(batch)) + bytes_of_texts(batch) =~= existing + bytes_of_texts(batch));
    assert((existing + bytes_of_texts(batch)) + bytes_of_texts(other) =~= (existing + bytes_of_texts(other))
        + bytes_of_texts(batch));
}

/// A form the index file can hold on one line: no newline in it, and no
/// carriage return at its end.
pub open spec fn fits_on_a_line(f: Seq<char>) -> bool {
    !f.contains('\n') && !(f.len() > 0 && f.last() == '\r')
}

/// The text of an index line without its newline.
pub open spec fn tsv_text(e: (u64, Seq<char>)) -> Seq<char> {
    decimal(e.0 as nat) + seq!['\t'] + e.1
}

/// The index the lines of a listing describe, later lines replacing
/// earlier ones.
pub open spec fn entries_of(s: Seq<(u64, Seq<char>)>) -> Map<u64, Seq<char>>
    decreases s.len(),
{
    if s.len() == 0 {
        Map::empty()
    } else {
        entries_of(s.drop_last()).insert(s.last().0, s.last().1)
    }
}

proof fn lemma_tsv_text_has_no_newline(e: (u64, Seq<char>))
    requires
        fits_on_a_line(e.1),
    ensures
        !tsv_text(e).contains('\n'),
        !(tsv_text(e).len() > 0 && tsv_text(e).last() == '\r'),
{
    let d = decimal(e.0 as nat);
    lemma_decimal_spells(e.0 as nat);
    let t = tsv_text(e);
    assert forall|i: int| 0 <= i < t.len() implies t[i] != '\n' by {
        if i < d.len() {
            assert(t[i] == d[i]);
            assert(is_digit(d[i]));
        } else if i > d.len() {
            assert(t[i] == e.1[i - d.len() - 1]);
        }
    }
    if e.1.len() > 0 {
        assert(t.last() == e.1.last());
    }
}

#[verifier::rlimit(30)]
proof fn lemma_pieces_of_render(s: Seq<(u64, Seq<char>)>)
    requires
        forall|i: int| 0 <= i < s.len() ==> fits_on_a_line(#[trigger] s[i].1),
    ensures
        newline_pieces(render_tsv(s)) == s.map_values(|e: (u64, Seq<char>)| tsv_text(e)).push(Seq::empty()),
    decreases s.len(),
{
    if s.len() == 0 {
        assert(render_tsv(s) =~= Seq::<char>::empty());
        assert(s.map_values(|e: (u64, Seq<char>)| tsv_text(e)).push(Seq::empty()) =~= seq![Seq::<char>::empty()]);
    } else {
        let rest = s.drop_last();
        lemma_pieces_of_render(rest);
        let x = render_tsv(rest);
        let y = tsv_text(s.last());
        lemma_tsv_text_has_no_newline(s.last());
        lemma_pieces_extend(x, y);
        assert(render_tsv(s) =~= (x + y).push('\n'));
        assert((x + y).push('\n').drop_last() =~= x + y);
        let p = newline_pieces(x);
        assert(p.last() + y =~= y);
        assert(p.update(p.len() - 1, y) =~= s.map_values(|e: (u64, Seq<char>)| tsv_text(e)));
    }
}

proof fn lemma_lines_of_render(s: Seq<(u64, Seq<char>)>)
    requires
        forall|i: int| 0 <= i < s.len() ==> fits_on_a_line(#[trigger] s[i].1),
    ensures
        lines_spec(render_tsv(s)) == s.map_values(|e: (u64, Seq<char>)| tsv_text(e)),
{
    lemma_pieces_of_render(s);
    if s.len() == 0 {
        assert(render_tsv(s) =~= Seq::<char>::empty());
    } else {
        let r = render_tsv(s);
        assert(r =~= render_tsv(s.drop_last()) + tsv_line(s.last().0, s.last().1));
        assert(r.last() == '\n');
        let lines = s.map_values(|e: (u64, Seq<char>)| tsv_text(e));
        assert forall|i: int| 0 <= i < lines.len() implies without_cr(#[trigger] lines[i]) == lines[i] by {
            lemma_tsv_text_has_no_newline(s[i]);
        }
        assert(lines.push(Seq::empty()).drop_last().map_values(|l: Seq<char>| without_cr(l)) =~= lines);
    }
}

proof fn lemma_tab_at(line: Seq<char>, i: int, j: int)
    requires
        0 <= i <= j < line.len(),
        line[j] == '\t',
        forall|k: int| i <= k < j ==> line[k] != '\t',
    ensures
        tab_from(line, i) == Some(j),
    decreases j - i,
{
    if i < j {
        lemma_tab_at(line, i + 1, j);
    }
}

proof fn lemma_tsv_line_reads_back(e: (u64, Seq<char>))
    ensures
        tsv_line_spec(tsv_text(e)) == Ok::<(u64, Seq<char>), Seq<char>>(e),
{
    let d = decimal(e.0 as nat);
    let t = tsv_text(e);
    lemma_decimal_spells(e.0 as nat);
    assert forall|k: int| 0 <= k < d.len() implies t[k] != '\t' by {
        assert(t[k] == d[k]);
        assert(is_digit(d[k]));
    }
    lemma_tab_at(t, 0, d.len() as int);
    assert(t.take(d.len() as int) =~= d);
    assert(t.skip(d.len() as int + 1) =~= e.1);
    lemma_parse_decimal(e.0);
}

proof fn lemma_entries_read_back(s: Seq<(u64, Seq<char>)>)
    ensures
        tsv_entries_spec(s.map_values(|e: (u64, Seq<char>)| tsv_text(e))) == Ok::<
            Map<u64, Seq<char>>,
            Seq<char>,
        >(entries_of(s)),
    decreases s.len(),
{
    let lines = s.map_values(|e: (u64, Seq<char>)| tsv_text(e));
    if s.len() > 0 {
        lemma_entries_read_back(s.drop_last());
        assert(lines.drop_last() =~= s.drop_last().map_values(|e: (u64, Seq<char>)| tsv_text(e)));
        lemma_tsv_line_reads_back(s.last());
    }
}

proof fn lemma_entries_of_listing(s: Seq<(u64, Seq<char>)>, m: Map<u64, Seq<char>>)
    requires
        is_listing(s, m),
    ensures
        entries_of(s) == m,
    decreases s.len(),
{
    if s.len() == 0 {
        assert forall|k: u64| !m.contains_key(k) by {
            if m.contains_key(k) {
                let i = choose|i: int| 0 <= i < s.len() && #[trigger] s[i].0 == k;
            }
        }
        assert(m =~= Map::<u64, Seq<char>>::empty());
    } else {
        let rest = s.drop_last();
        let k = s.last().0;
        let m2 = m.remove(k);
        assert(is_listing(rest, m2)) by {
            assert forall|i: int| 0 <= i < rest.len() implies m2.contains_key(#[trigger] rest[i].0) && m2[rest[i].0]
                == rest[i].1 by {
                assert(rest[i] == s[i]);
                assert(s[i].0 < s[s.len() - 1].0);
            }
            assert forall|q: u64| m2.contains_key(q) implies exists|i: int| 0 <= i < rest.len() && #[trigger] rest[i].0
                == q by {
                let i = choose|i: int| 0 <= i < s.len() && #[trigger] s[i].0 == q;
                assert(i != s.len() - 1);
                assert(rest[i] == s[i]);
            }
        }
        lemma_entries_of_listing(rest, m2);
        assert(entries_of(s) =~= m);
    }
}

/// Reading the index file back gives the index that was written, when its
/// forms fit on a line (as forms do: they hold no line breaks).
pub proof fn law_index_file_round_trip(m: Map<u64, Seq<char>>, s: Seq<(u64, Seq<char>)>)
    requires
        is_listing(s, m),
        forall|v: u64| #[trigger] m.contains_key(v) ==> fits_on_a_line(m[v]),
    ensures
        tsv_entries_spec(lines_spec(tsv_of(m))) == Ok::<Map<u64, Seq<char>>, Seq<char>>(m),
{
    let chosen = choose|t: Seq<(u64, Seq<char>)>| is_listing(t, m);
    lemma_listing_unique(chosen, s, m);
    assert forall|i: int| 0 <= i < s.len() implies fits_on_a_line(#[trigger] s[i].1) by {
        assert(m.contains_key(s[i].0));
    }
    lemma_lines_of_render(s);
    lemma_entries_read_back(s);
    lemma_entries_of_listing(s, m);
}

/// A store reopened from the bytes its layers were written as answers every
/// lookup as the store that wrote them (see `MapStore::from_layers`,
/// `MapStore::recent_layer_bytes` and the bytes `commit` and `maybe_compact`
/// give to write).
pub proof fn law_reopened_store_answers_alike(
    written: MapStore,
    reopened: MapStore,
    base: Seq<u8>,
    recent: Option<Seq<u8>>,
)
    requires
        map_layer_decoded(base) == Some(written.base_entries()),
        recent matches Some(r) ==> map_layer_decoded(r) == Some(written.recent_entries()),
        recent is None ==> !written.has_recent(),
        Some(reopened.base_entries()) == map_layer_decoded(base),
        reopened.has_recent() <==> recent is Some,
        recent matches Some(r) ==> Some(reopened.recent_entries()) == map_layer_decoded(r),
    ensures
        reopened.contents() == written.contents(),
{
}

/// A set store reopened from the bytes its layers were written as holds
/// what the store that wrote them held.
pub proof fn law_reopened_set_store_holds_alike(
    written: SetStore,
    reopened: SetStore,
    base: Seq<u8>,
    recent: Option<Seq<u8>>,
)
    requires
        set_layer_decoded(base) == Some(written.base_keys()),
        recent matches Some(r) ==> set_layer_decoded(r) == Some(written.recent_keys()),
        recent is None ==> !written.has_recent(),
        Some(reopened.base_keys()) == set_layer_decoded(base),
        reopened.has_recent() <==> recent is Some,
        recent matches Some(r) ==> Some(reopened.recent_keys()) == set_layer_decoded(r),
    ensures
        reopened.contents() == written.contents(),
{
}

} // verus!
