use std::collections::{BTreeMap, BTreeSet};

use evaluations::engine::TieredLookup;
use evaluations::evaluator::EvalLookup;
use evaluations::layers::{MapLayer, SetLayer};
use evaluations::store::{join_path_text, Frontier, MapStore, MinIndex, SetStore};

fn batch_of(pairs: &[(&str, u64)]) -> BTreeMap<String, u64> {
    pairs.iter().map(|(k, v)| (k.to_string(), *v)).collect()
}

fn set_of(items: &[&str]) -> BTreeSet<String> {
    items.iter().map(|s| s.to_string()).collect()
}

fn fresh_evaluations() -> MapStore {
    MapStore::from_layers(MapStore::seed_base(), None).unwrap()
}

#[test]
fn min_index_keeps_shortest_then_least() {
    let mut index = MinIndex::new();
    assert_eq!(index.len(), 0);
    assert_eq!(index.save_if_dirty(), None);
    index.offer(2, "^(^(0))");
    index.offer(2, "R(^(#),0,^(0))");
    assert_eq!(index.get(2), Some("^(^(0))"));
    index.offer(5, "^(b)");
    index.offer(5, "^(a)");
    assert_eq!(index.get(5), Some("^(a)"));
    index.offer(5, "^(c)");
    assert_eq!(index.get(5), Some("^(a)"));
    assert_eq!(index.get(7), None);
    assert_eq!(index.len(), 2);
    assert_eq!(index.save_if_dirty(), Some("2\t^(^(0))\n5\t^(a)\n".to_string()));
    assert_eq!(index.save_if_dirty(), None);
    index.offer(5, "^(b)");
    assert_eq!(index.save_if_dirty(), None);
    index.offer(9, "x");
    assert_eq!(index.render(), "2\t^(^(0))\n5\t^(a)\n9\tx\n");
}

#[test]
fn offers_in_either_order_agree() {
    let mut a = MinIndex::new();
    let mut b = MinIndex::new();
    a.offer(3, "^(^(^(0)))");
    a.offer(3, "R(^(#),0,0)");
    b.offer(3, "R(^(#),0,0)");
    b.offer(3, "^(^(^(0)))");
    assert_eq!(a.render(), b.render());
}

#[test]
fn min_index_reads_its_file() {
    let index = MinIndex::from_tsv("0\t0\n1\t^(0)\n").unwrap();
    assert_eq!(index.len(), 2);
    assert_eq!(index.get(1), Some("^(0)"));
    assert_eq!(index.render(), "0\t0\n1\t^(0)\n");
    let tabs = MinIndex::from_tsv("4\ta\tb\n").unwrap();
    assert_eq!(tabs.get(4), Some("a\tb"));
    assert_eq!(MinIndex::from_tsv("").unwrap().len(), 0);
    assert_eq!(
        MinIndex::from_tsv("1\t^(0)\nno tab here\n").err(),
        Some("malformed index line: no tab here".to_string())
    );
    assert_eq!(
        MinIndex::from_tsv("x\t^(0)\n").err(),
        Some("x\t^(0): invalid digit found in string".to_string())
    );
}

#[test]
fn min_index_bootstrap_covers_the_store() {
    let mut store = fresh_evaluations();
    store.commit(&batch_of(&[("^(0)", 1), ("R(^(#),0,0)", 0), ("^(^(0))", 2)]));
    let mut index = MinIndex::bootstrap(&store).unwrap();
    assert_eq!(index.get(0), Some("0"));
    assert_eq!(index.get(1), Some("^(0)"));
    assert_eq!(index.get(2), Some("^(^(0))"));
    assert_eq!(index.len(), 3);
    assert!(index.save_if_dirty().is_some());
}

#[test]
fn map_store_seed_and_reads() {
    let store = fresh_evaluations();
    assert_eq!(store.get("0"), Some(0));
    assert_eq!(store.get("^(0)"), None);
    assert_eq!(store.len(), 1);
    assert_eq!(store.recent_bytes(), 0);
    assert!(store.base_bytes() > 0);
    assert_eq!(store.recent_layer_bytes(), None);
    let pending = BTreeMap::new();
    assert_eq!(TieredLookup::new(&store, &pending).lookup("0"), Some(0));
}

#[test]
fn commit_then_get() {
    let mut store = fresh_evaluations();
    assert_eq!(store.commit(&BTreeMap::new()), None);
    let bytes = store.commit(&batch_of(&[("^(0)", 1), ("^(^(0))", 2)])).unwrap();
    assert_eq!(store.get("^(0)"), Some(1));
    assert_eq!(store.get("^(^(0))"), Some(2));
    assert_eq!(store.get("0"), Some(0));
    assert_eq!(store.len(), 3);
    assert_eq!(store.recent_bytes(), bytes.len() as u64);
    assert_eq!(store.recent_layer_bytes(), Some(bytes.clone()));
    // What was written reads back as the same store.
    let reopened = MapStore::from_layers(MapStore::seed_base(), Some(bytes)).unwrap();
    assert_eq!(reopened.get("^(^(0))"), Some(2));
    assert_eq!(reopened.len(), 3);
    // Entries already in the recent layer win over a later batch.
    store.commit(&batch_of(&[("^(0)", 99), ("^(^(^(0)))", 3)]));
    assert_eq!(store.get("^(0)"), Some(1));
    assert_eq!(store.get("^(^(^(0)))"), Some(3));
}

#[test]
fn compaction_keeps_every_answer() {
    let mut store = fresh_evaluations();
    store.commit(&batch_of(&[("^(0)", 1), ("^(^(0))", 2)]));
    assert_eq!(store.maybe_compact(u64::MAX), None);
    assert_eq!(store.get("^(0)"), Some(1));
    let base = store.maybe_compact(0).unwrap();
    assert_eq!(store.recent_bytes(), 0);
    assert_eq!(store.recent_layer_bytes(), None);
    assert_eq!(store.get("^(0)"), Some(1));
    assert_eq!(store.get("^(^(0))"), Some(2));
    assert_eq!(store.get("0"), Some(0));
    assert_eq!(store.base_bytes(), base.len() as u64);
    let reopened = MapStore::from_layers(base, None).unwrap();
    assert_eq!(reopened.len(), 3);
    assert_eq!(store.maybe_compact(0), None);
}

#[test]
fn listing_is_in_key_order() {
    let mut store = fresh_evaluations();
    store.commit(&batch_of(&[("^(0)", 1), ("R(^(#),0,0)", 0)]));
    let listing = store.listing().unwrap();
    assert_eq!(
        listing,
        vec![("0".to_string(), 0), ("R(^(#),0,0)".to_string(), 0), ("^(0)".to_string(), 1)]
    );
    let mut seen = Vec::new();
    store
        .for_each_while(|key, value| {
            seen.push((key.to_string(), value));
            seen.len() < 2
        })
        .unwrap();
    assert_eq!(seen, listing[..2].to_vec());
}

#[test]
fn corrupt_layers_are_refused() {
    assert!(MapStore::from_layers(vec![1, 2, 3], None).is_err());
    assert!(SetStore::from_layers(vec![1, 2, 3], None).is_err());
}

#[test]
fn set_store_commit_then_contains() {
    let mut store = SetStore::from_layers(SetStore::seed_base(), None).unwrap();
    assert_eq!(store.len(), 0);
    assert!(!store.contains("^(*)"));
    assert_eq!(store.commit(&BTreeSet::new()), None);
    let bytes = store.commit(&set_of(&["^(*)", "^(^(*))"])).unwrap();
    assert!(store.contains("^(*)"));
    assert!(store.contains("^(^(*))"));
    assert!(!store.contains("R(^(#),*,0)"));
    assert_eq!(store.len(), 2);
    assert_eq!(store.recent_bytes(), bytes.len() as u64);
    store.commit(&set_of(&["^(*)", "R(^(#),*,0)"]));
    assert_eq!(store.len(), 3);
    let base = store.maybe_compact(0).unwrap();
    assert_eq!(store.recent_bytes(), 0);
    assert!(store.contains("R(^(#),*,0)"));
    let reopened = SetStore::from_layers(base, None).unwrap();
    assert_eq!(reopened.len(), 3);
    assert!(reopened.contains("^(^(*))"));
}

#[test]
fn paths_are_joined_like_path_join() {
    assert_eq!(join_path_text("/p", "state"), "/p/state");
    assert_eq!(join_path_text("/p/", "state"), "/p/state");
    assert_eq!(join_path_text("", "state"), "state");
    assert_eq!(join_path_text("/p", "/abs"), "/abs");
    assert_eq!(Frontier::dir("/p", "chains", "nullaries"), "/p/state/chains/nullaries");
    assert_eq!(Frontier::fst_path("/p", "chains", "unaries", 12), "/p/state/chains/unaries/12.fst");
    assert_eq!(Frontier::txt_path(".", "strata", "nullaries", 0), "./state/strata/nullaries/0.txt");
}

#[test]
fn frontier_file_names() {
    assert_eq!(Frontier::index_of_name("12.fst"), Some(12));
    assert_eq!(Frontier::index_of_name("0.fst"), Some(0));
    assert_eq!(Frontier::index_of_name("+3.fst"), Some(3));
    assert_eq!(Frontier::index_of_name("12.txt"), None);
    assert_eq!(Frontier::index_of_name("x.fst"), None);
    assert_eq!(Frontier::index_of_name(".fst"), None);
    assert_eq!(Frontier::index_of_name("fst"), None);
    let names: Vec<String> = ["10.fst", "2.fst", "2.txt", "tmp", "0.fst", "10.tmp"]
        .iter()
        .map(|s| s.to_string())
        .collect();
    assert_eq!(Frontier::indices(&names), vec![0, 2, 10]);
    assert_eq!(Frontier::indices(&Vec::new()), Vec::<u64>::new());
}

#[test]
fn frontier_seeds() {
    assert_eq!(
        Frontier::seeds(),
        vec![
            ("nullaries".to_string(), "0".to_string()),
            ("unaries".to_string(), "^(*)".to_string())
        ]
    );
}

fn layer(bytes: Vec<u8>) -> SetLayer {
    SetLayer::from_bytes(bytes).unwrap()
}

#[test]
fn frontier_append_is_a_union() {
    assert_eq!(Frontier::append(None, &BTreeSet::new()), None);
    let first = Frontier::append(None, &set_of(&["^(0)", "0"])).unwrap();
    assert_eq!(Frontier::items_of_layer(&layer(first.clone())).unwrap(), vec!["0", "^(0)"]);
    let second = Frontier::append(Some(&layer(first.clone())), &set_of(&["R(^(#),0,0)", "0"])).unwrap();
    assert_eq!(
        Frontier::items_of_layer(&layer(second.clone())).unwrap(),
        vec!["0", "R(^(#),0,0)", "^(0)"]
    );
    // Appending the same batch again changes nothing.
    let third = Frontier::append(Some(&layer(second.clone())), &set_of(&["R(^(#),0,0)"])).unwrap();
    assert_eq!(
        Frontier::items_of_layer(&layer(third)).unwrap(),
        Frontier::items_of_layer(&layer(second)).unwrap()
    );
    assert!(SetLayer::from_bytes(vec![9, 9, 9]).is_err());
}

#[test]
fn older_text_frontiers() {
    let items = Frontier::items_of_text("  ^(0)\n\n0\r\n  \n^(0)  \nR(^(#),0,0)");
    assert_eq!(items, set_of(&["0", "^(0)", "R(^(#),0,0)"]));
    assert!(Frontier::items_of_text("").is_empty());
}

#[test]
fn keys_that_are_not_utf8_are_reported() {
    let map = fst::Map::from_iter(vec![(vec![b'0'], 0u64), (vec![0xff, 0xfe], 7u64)]).unwrap();
    let store = MapStore::from_layers(map.as_fst().to_vec(), None).unwrap();
    assert_eq!(store.len(), 2);
    assert!(store.listing().is_err());
    assert!(MinIndex::bootstrap(&store).is_err());
    // Streaming stops before the bad key when the callback says so.
    let mut seen = Vec::new();
    assert!(store
        .for_each_while(|key, value| {
            seen.push((key.to_string(), value));
            false
        })
        .is_ok());
    assert_eq!(seen, vec![("0".to_string(), 0)]);
    assert!(store.for_each_while(|_, _| true).is_err());
    let bad_set = fst::Set::from_iter(vec![vec![0xffu8]]).unwrap();
    assert!(Frontier::items_of_layer(&layer(bad_set.as_fst().to_vec())).is_err());
}

#[test]
fn frontier_appends_commute() {
    let a = set_of(&["^(0)", "0"]);
    let b = set_of(&["R(^(#),0,0)", "^(^(0))"]);
    let ab = Frontier::append(Some(&layer(Frontier::append(None, &a).unwrap())), &b).unwrap();
    let ba = Frontier::append(Some(&layer(Frontier::append(None, &b).unwrap())), &a).unwrap();
    assert_eq!(Frontier::items_of_layer(&layer(ab)).unwrap(), Frontier::items_of_layer(&layer(ba)).unwrap());
}

#[test]
fn index_file_reads_back() {
    let mut index = MinIndex::new();
    index.offer(0, "0");
    index.offer(3, "R(^(#),0,^(^(^(0))))");
    index.offer(3, "^(^(^(0)))");
    index.offer(18446744073709551615, "x\ty");
    let text = index.render();
    let reread = MinIndex::from_tsv(&text).unwrap();
    assert_eq!(reread.render(), text);
    assert_eq!(reread.get(3), Some("^(^(^(0)))"));
    assert_eq!(reread.get(18446744073709551615), Some("x\ty"));
    assert_eq!(reread.len(), 3);
}

#[test]
fn step_limited_file_reads_back() {
    let forms = set_of(&["R(R(^(#),#,0),0,^(^(^(0))))", "^(0)", "R(^(#),0,0)"]);
    let text = evaluations::engine::render_forms(&forms);
    assert_eq!(Frontier::items_of_text(&text), forms);
    assert_eq!(Frontier::items_of_text(&evaluations::engine::render_forms(&BTreeSet::new())), BTreeSet::new());
}

#[test]
fn index_holds_least_form_in_any_order() {
    let offers = [(3u64, "^(^(^(0)))"), (3, "R(^(#),0,^(^(^(0))))"), (1, "^(0)"), (3, "^(^(^(0)))"), (1, "R(#,^(0),0)")];
    let mut forward = MinIndex::new();
    for (value, form) in offers.iter() {
        forward.offer(*value, form);
    }
    let mut backward = MinIndex::new();
    for (value, form) in offers.iter().rev() {
        backward.offer(*value, form);
    }
    assert_eq!(forward.get(3), Some("^(^(^(0)))"));
    assert_eq!(forward.get(1), Some("^(0)"));
    assert_eq!(forward.get(2), None);
    assert_eq!(forward.render(), backward.render());
}

#[test]
fn commit_count_adds_the_new_entries() {
    let mut store = fresh_evaluations();
    let before = store.len();
    store.commit(&batch_of(&[("^(0)", 1), ("^(^(0))", 2)])).unwrap();
    assert_eq!(store.len(), before + 2);
}

#[test]
fn refused_bytes_are_errors() {
    // Too short, and a format version of zero: fst refuses both.
    assert!(MapStore::from_layers(vec![0u8; 10], None).is_err());
    assert!(SetStore::from_layers(vec![0u8; 40], None).is_err());
    assert!(MapStore::from_layers(MapStore::seed_base(), Some(vec![1u8; 5])).is_err());
    assert!(SetLayer::from_bytes(vec![0u8; 3]).is_err());
    assert!(MapLayer::from_bytes(vec![0u8; 36]).is_err());
}
