//! Ordered sets and maps of texts, as the engine keeps its pending batches.
use std::collections::{BTreeMap, BTreeSet};
use vstd::prelude::*;
use crate::text::{bytes_lt, utf8};

verus! {

/// The texts a set holds.
pub open spec fn texts(s: &BTreeSet<String>) -> Set<Seq<char>> {
    s.deep_view()
}

/// What a map from texts holds.
pub open spec fn text_entries(m: &BTreeMap<String, u64>) -> Map<Seq<char>, u64> {
    m.deep_view()
}

/// `v` lists the texts of `s` once each, in increasing order of their bytes.
pub open spec fn lists_texts(v: Seq<Seq<char>>, s: Set<Seq<char>>) -> bool {
    &&& forall|i: int, j: int| 0 <= i < j < v.len() ==> bytes_lt(utf8(v[i]), utf8(v[j]))
    &&& forall|i: int| 0 <= i < v.len() ==> s.contains(#[trigger] v[i])
    &&& forall|t: Seq<char>| s.contains(t) ==> exists|i: int| 0 <= i < v.len() && #[trigger] v[i] == t
}

/// `v` lists the entries of `m` once each, in increasing order of the bytes
/// of their keys.
pub open spec fn lists_entries(v: Seq<(Seq<char>, u64)>, m: Map<Seq<char>, u64>) -> bool {
    &&& forall|i: int, j: int| 0 <= i < j < v.len() ==> bytes_lt(utf8(v[i].0), utf8(v[j].0))
    &&& forall|i: int| 0 <= i < v.len() ==> m.contains_key(#[trigger] v[i].0) && m[v[i].0] == v[i].1
    &&& forall|t: Seq<char>| m.contains_key(t) ==> exists|i: int| 0 <= i < v.len() && #[trigger] v[i].0 == t
}

pub open spec fn views_of_strings(v: Seq<String>) -> Seq<Seq<char>> {
    v.map_values(|s: String| s@)
}

pub open spec fn views_of_pairs(v: Seq<(String, u64)>) -> Seq<(Seq<char>, u64)> {
    v.map_values(|p: (String, u64)| (p.0@, p.1))
}

/// An empty set of texts.
pub fn empty_texts() -> (r: BTreeSet<String>)
    ensures
        texts(&r) == Set::<Seq<char>>::empty(),
{
    let r = BTreeSet::new();
    assert(texts(&r) =~= Set::<Seq<char>>::empty());
    r
}

/// An empty map from texts.
pub fn empty_text_entries() -> (r: BTreeMap<String, u64>)
    ensures
        text_entries(&r) == Map::<Seq<char>, u64>::empty(),
{
    let r: BTreeMap<String, u64> = BTreeMap::new();
    proof {
        reveal(vstd::std_specs::btree::btree_map_deep_view_impl);
    }
    assert(text_entries(&r) =~= Map::<Seq<char>, u64>::empty());
    r
}

/// `BTreeSet::contains`: whether the set holds the text.
#[verifier::external_body]
pub(crate) fn texts_contain(s: &BTreeSet<String>, t: &str) -> (r: bool)
    ensures
        r == texts(s).contains(t@),
{
    s.contains(t)
}

/// `BTreeSet::insert`: the set afterwards holds the text as well.
#[verifier::external_body]
pub(crate) fn texts_insert(s: &mut BTreeSet<String>, t: String)
    ensures
        texts(final(s)) == texts(old(s)).insert(t@),
{
    s.insert(t);
}

/// `BTreeSet::remove`: the set afterwards no longer holds the text.
#[verifier::external_body]
pub(crate) fn texts_remove(s: &mut BTreeSet<String>, t: &str)
    ensures
        texts(final(s)) == texts(old(s)).remove(t@),
{
    s.remove(t);
}

/// `BTreeSet::len`: the number of texts the set holds.
#[verifier::external_body]
pub(crate) fn texts_len(s: &BTreeSet<String>) -> (r: usize)
    ensures
        r == texts(s).len(),
{
    s.len()
}

/// `BTreeSet::clear`: the set afterwards is empty.
#[verifier::external_body]
pub(crate) fn texts_clear(s: &mut BTreeSet<String>)
    ensures
        texts(final(s)) == Set::<Seq<char>>::empty(),
{
    s.clear();
}

/// `BTreeSet::iter`, its texts copied into a vector: the texts of the set
/// in ascending order, which for `String` is the order of their bytes.
#[verifier::external_body]
pub(crate) fn texts_in_order(s: &BTreeSet<String>) -> (r: Vec<String>)
    ensures
        lists_texts(views_of_strings(r@), texts(s)),
{
    s.iter().cloned().collect()
}

/// `BTreeMap::get`: the value the map holds for the text.
#[verifier::external_body]
pub(crate) fn text_entries_get(m: &BTreeMap<String, u64>, t: &str) -> (r: Option<u64>)
    ensures
        r == text_entries(m).get(t@),
{
    m.get(t).copied()
}

/// `BTreeMap::insert`: the map afterwards holds the value for the text.
#[verifier::external_body]
pub(crate) fn text_entries_insert(m: &mut BTreeMap<String, u64>, t: String, value: u64)
    ensures
        text_entries(final(m)) == text_entries(old(m)).insert(t@, value),
{
    m.insert(t, value);
}

/// `BTreeMap::len`: the number of entries of the map.
#[verifier::external_body]
pub(crate) fn text_entries_len(m: &BTreeMap<String, u64>) -> (r: usize)
    ensures
        r == text_entries(m).len(),
{
    m.len()
}

/// `BTreeMap::clear`: the map afterwards is empty.
#[verifier::external_body]
pub(crate) fn text_entries_clear(m: &mut BTreeMap<String, u64>)
    ensures
        text_entries(final(m)).is_empty(),
{
    m.clear();
}

/// `BTreeMap::iter`, its entries copied into a vector: the entries of the
/// map in ascending order of their keys, which for `String` is the order of
/// their bytes.
#[verifier::external_body]
pub(crate) fn text_entries_in_order(m: &BTreeMap<String, u64>) -> (r: Vec<(String, u64)>)
    ensures
        lists_entries(views_of_pairs(r@), text_entries(m)),
{
    m.iter().map(|(k, v)| (k.clone(), *v)).collect()
}

} // verus!
