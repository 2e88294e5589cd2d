//! Upkeep of the FST files outside an exploration run: checking candidate
//! forms against them, building and merging maps, and the points that chart
//! the evaluations.
use std::collections::BTreeMap;
use vstd::prelude::*;
use crate::collections::{text_entries, views_of_strings};
use crate::layers::{
    byte_pairs, least_union, lists_map, map_layer_bytes, map_layer_decoded, map_layer_from_listing, map_layer_listing,
    lemma_map_layer, lemma_set_layer, set_layer_contains, union_listing, MapLayer, SetLayer,
};
use crate::store::entry_listing;
use crate::text::{keyed_by_bytes, text_from_utf8, utf8};

verus! {

/// The candidates, in their order, that the set of unaries (one fst wrote)
/// does not hold.
pub fn unknown_candidates(unaries: &SetLayer, candidates: &Vec<String>) -> (r: Vec<String>)
    requires
        unaries.intact(),
    ensures
        views_of_strings(r@) == views_of_strings(candidates@).filter(
            |c: Seq<char>| !unaries.keys().contains(utf8(c)),
        ),
{
    proof {
        lemma_set_layer(unaries);
    }
    let ghost cs = views_of_strings(candidates@);
    let ghost pred = |c: Seq<char>| !unaries.keys().contains(utf8(c));
    let mut r: Vec<String> = Vec::new();
    let mut k: usize = 0;
    while k < candidates.len()
        invariant
            cs == views_of_strings(candidates@),
            pred == (|c: Seq<char>| !unaries.keys().contains(utf8(c))),
            0 <= k <= candidates.len(),
            unaries.intact(),
            views_of_strings(r@) == cs.take(k as int).filter(pred),
        decreases candidates.len() - k,
    {
        let c = &candidates[k];
        assert(cs.take(k + 1).drop_last() =~= cs.take(k as int));
        assert(cs.take(k + 1).last() == c@);
        proof {
            reveal(Seq::filter);
            lemma_set_layer(unaries);
        }
        let ghost before = r@;
        if !set_layer_contains(&unaries.set, c.as_str().as_bytes()) {
            r.push(c.clone());
            assert(views_of_strings(r@) =~= views_of_strings(before).push(c@));
        }
        k = k + 1;
    }
    assert(cs.take(candidates.len() as int) =~= cs);
    r
}

/// The bytes of a map holding exactly the given entries, keyed by the bytes
/// of their texts.
pub fn layer_of_entries(entries: &BTreeMap<String, u64>) -> (r: Vec<u8>)
    ensures
        map_layer_decoded(r@) == Some(keyed_by_bytes(text_entries(entries))),
{
    let listing = entry_listing(entries);
    let m = match map_layer_from_listing(listing) {
        Ok(m) => m,
        Err(_) => {
            assert(false);
            return Vec::new();
        },
    };
    map_layer_bytes(&m)
}

/// The bytes of the union of two maps (both written by fst), where both
/// hold a key the smaller value kept.
pub fn merge_least(base: &MapLayer, extra: &MapLayer) -> (r: Vec<u8>)
    requires
        base.intact(),
        extra.intact(),
    ensures
        map_layer_decoded(r@) == Some(least_union(base.entries(), extra.entries())),
{
    proof {
        lemma_map_layer(base);
        lemma_map_layer(extra);
    }
    let merged = union_listing(&base.map, &extra.map, true);
    let layer = match map_layer_from_listing(merged) {
        Ok(m) => m,
        Err(_) => {
            assert(false);
            return Vec::new();
        },
    };
    map_layer_bytes(&layer)
}

/// The point that charts an entry: its value, and the length of its key.
pub open spec fn points_of(listing: Seq<(Seq<u8>, u64)>) -> Seq<(u64, u64)> {
    listing.map_values(|e: (Seq<u8>, u64)| (e.1, e.0.len() as u64))
}

/// The position of the first point whose value exceeds `v` (the length when
/// there is none).
pub open spec fn first_above(s: Seq<(u64, u64)>, v: u64) -> int
    decreases s.len(),
{
    if s.len() == 0 {
        0
    } else if s[0].0 > v {
        0
    } else {
        1 + first_above(s.drop_first(), v)
    }
}

/// The points sorted by value, points of equal value kept in their order:
/// each point in turn goes after every point sorted so far whose value is
/// not larger.
pub open spec fn sorted_by_value(s: Seq<(u64, u64)>) -> Seq<(u64, u64)>
    decreases s.len(),
{
    if s.len() == 0 {
        s
    } else {
        let sorted = sorted_by_value(s.drop_last());
        sorted.insert(first_above(sorted, s.last().0), s.last())
    }
}

pub open spec fn ascending_values(s: Seq<(u64, u64)>) -> bool {
    forall|i: int, j: int| 0 <= i <= j < s.len() ==> s[i].0 <= s[j].0
}

proof fn lemma_first_above(s: Seq<(u64, u64)>, v: u64, p: int)
    requires
        0 <= p <= s.len(),
        forall|q: int| 0 <= q < p ==> #[trigger] s[q].0 <= v,
        p < s.len() ==> s[p].0 > v,
    ensures
        first_above(s, v) == p,
    decreases s.len(),
{
    if s.len() > 0 && p > 0 {
        assert forall|q: int| 0 <= q < p - 1 implies #[trigger] s.drop_first()[q].0 <= v by {
            assert(s.drop_first()[q] == s[q + 1]);
        }
        lemma_first_above(s.drop_first(), v, p - 1);
    }
}

/// The points that chart a map of evaluations, sorted by value (points of
/// equal value in the order of their keys); fails on a key that is not
/// UTF-8.
pub fn points_by_value(evaluations: &MapLayer) -> (r: Result<Vec<(u64, u64)>, String>)
    requires
        evaluations.intact(),
    ensures
        r is Ok <==> forall|k: Seq<u8>| #[trigger] evaluations.entries().contains_key(k)
            ==> vstd::utf8::valid_utf8(k),
        r matches Ok(v) ==> exists|l: Seq<(Seq<u8>, u64)>|
            lists_map(l, evaluations.entries()) && v@ == sorted_by_value(#[trigger] points_of(l)),
        r matches Ok(v) ==> ascending_values(v@),
{
    proof {
        lemma_map_layer(evaluations);
    }
    let listing = map_layer_listing(&evaluations.map);
    let ghost l = byte_pairs(listing@);
    let ghost pts = points_of(l);
    let mut points: Vec<(u64, u64)> = Vec::new();
    let mut i: usize = 0;
    assert(pts.take(0) =~= Seq::<(u64, u64)>::empty());
    while i < listing.len()
        invariant
            l == byte_pairs(listing@),
            pts == points_of(l),
            evaluations.intact(),
            lists_map(l, evaluations.entries()),
            0 <= i <= listing.len(),
            points@ == sorted_by_value(pts.take(i as int)),
            ascending_values(points@),
            forall|t: int| 0 <= t < i ==> vstd::utf8::valid_utf8(#[trigger] l[t].0),
        decreases listing.len() - i,
    {
        assert(l[i as int].0 == listing@[i as int].0@);
        if let Err(e) = text_from_utf8(listing[i].0.clone()) {
            proof {
                if evaluations.intact() {
                    assert(evaluations.entries().contains_key(l[i as int].0));
                }
            }
            return Err(e);
        }
        let point: (u64, u64) = (listing[i].1, listing[i].0.len() as u64);
        assert(point == pts[i as int]);
        let mut p: usize = 0;
        while p < points.len() && points[p].0 <= point.0
            invariant
                0 <= p <= points.len(),
                forall|q: int| 0 <= q < p ==> #[trigger] points@[q].0 <= point.0,
            decreases points.len() - p,
        {
            p = p + 1;
        }
        let ghost before = points@;
        proof {
            lemma_first_above(before, point.0, p as int);
            assert(pts.take(i + 1).drop_last() =~= pts.take(i as int));
            assert(pts.take(i + 1).last() == point);
        }
        points.insert(p, point);
        assert forall|a: int, b: int| 0 <= a <= b < points@.len() implies points@[a].0 <= points@[b].0 by {
            if a < p && b > p {
                assert(before[a].0 <= point.0);
            }
        }
        i = i + 1;
    }
    assert(pts.take(listing.len() as int) =~= pts);
    proof {
        if evaluations.intact() {
            assert forall|k: Seq<u8>| #[trigger] evaluations.entries().contains_key(k) implies vstd::utf8::valid_utf8(k) by {
                let t = choose|t: int| 0 <= t < l.len() && #[trigger] l[t].0 == k;
            }
        }
    }
    Ok(points)
}

} // verus!
