use std::collections::BTreeMap;
use std::sync::Arc;

use evaluations::fst_inclusion::{fst_contains_nullary, NullaryAndFst};
use evaluations::maintenance::{layer_of_entries, merge_least, points_by_value, unknown_candidates};
use evaluations::layers::{MapLayer, SetLayer};
use evaluations::store::Frontier;

fn bytes_of(pairs: &[(&str, u64)]) -> Vec<u8> {
    let entries: BTreeMap<String, u64> = pairs.iter().map(|(k, v)| (k.to_string(), *v)).collect();
    layer_of_entries(&entries)
}

fn map_of(pairs: &[(&str, u64)]) -> fst::Map<Vec<u8>> {
    fst::Map::new(bytes_of(pairs)).unwrap()
}

fn layer_of(pairs: &[(&str, u64)]) -> MapLayer {
    MapLayer::from_bytes(bytes_of(pairs)).unwrap()
}

fn strings(items: &[&str]) -> Vec<String> {
    items.iter().map(|s| s.to_string()).collect()
}

#[test]
fn built_maps_hold_their_entries() {
    let map = map_of(&[("^(0)", 1), ("0", 0), ("R(^(#),0,0)", 0)]);
    assert_eq!(map.len(), 3);
    assert_eq!(map.get("^(0)"), Some(1));
    assert_eq!(map.get("R(^(#),0,0)"), Some(0));
    assert_eq!(map.get("^(^(0))"), None);
    let empty = map_of(&[]);
    assert_eq!(empty.len(), 0);
}

#[test]
fn membership_in_a_shared_map() {
    let map = Arc::new(layer_of(&[("0", 0), ("^(0)", 1)]));
    let present = "^(0)".to_string();
    let absent = "^(^(0))".to_string();
    assert!(fst_contains_nullary(NullaryAndFst { nullary: &present, fst: Arc::clone(&map) }));
    assert!(!fst_contains_nullary(NullaryAndFst { nullary: &absent, fst: Arc::clone(&map) }));
}

#[test]
fn candidate_checks() {
    let unaries_bytes = Frontier::append(None, &["^(*)".to_string()].into_iter().collect()).unwrap();
    let unaries = SetLayer::from_bytes(unaries_bytes).unwrap();
    let unary_candidates = strings(&["^(*)", "^(^(*))", "R(^(#),*,0)"]);
    assert_eq!(unknown_candidates(&unaries, &unary_candidates), strings(&["^(^(*))", "R(^(#),*,0)"]));
    assert!(unknown_candidates(&unaries, &Vec::new()).is_empty());
}

#[test]
fn merging_keeps_the_least_value() {
    let base = layer_of(&[("a", 5), ("b", 2), ("c", 9)]);
    let extra = layer_of(&[("b", 7), ("c", 1), ("d", 4)]);
    let merged = fst::Map::new(merge_least(&base, &extra)).unwrap();
    assert_eq!(merged.len(), 4);
    assert_eq!(merged.get("a"), Some(5));
    assert_eq!(merged.get("b"), Some(2));
    assert_eq!(merged.get("c"), Some(1));
    assert_eq!(merged.get("d"), Some(4));
}

#[test]
fn chart_points_sorted_by_value() {
    let map = layer_of(&[("0", 0), ("^(0)", 1), ("R(^(#),0,0)", 0), ("^(^(0))", 2), ("R(^(#),0,^(0))", 1)]);
    // Keys in order: "0", "R(^(#),0,0)", "R(^(#),0,^(0))", "^(0)", "^(^(0))".
    assert_eq!(points_by_value(&map).unwrap(), vec![(0, 1), (0, 11), (1, 14), (1, 4), (2, 7)]);
    assert_eq!(points_by_value(&layer_of(&[])).unwrap(), vec![]);
}
