use std::collections::BTreeSet;

use evaluations::engine::{
    render_forms, step_limited_path, Action, CommitPlan, Cursor, Engine, EngineConfig, LengthProgress, Progress,
    RetryReport, Stats,
};
use evaluations::store::{MapStore, MinIndex, SetStore};
use evaluations::synthesis::{stratum_size, Strata};

fn set_of(items: &[&str]) -> BTreeSet<String> {
    items.iter().map(|s| s.to_string()).collect()
}

fn empty_set_store() -> SetStore {
    SetStore::from_layers(SetStore::seed_base(), None).unwrap()
}

fn quiet_config(step_limit: u64) -> EngineConfig {
    EngineConfig { batch_keys: 1_000_000, batch_secs: u64::MAX, compact_bytes: u64::MAX, step_limit }
}

fn engine_with(config: EngineConfig, length: LengthProgress, depth: Progress, step_limited: BTreeSet<String>) -> Engine {
    Engine::new(
        "/project".to_string(),
        config,
        MapStore::from_layers(MapStore::seed_base(), None).unwrap(),
        empty_set_store(),
        MinIndex::new(),
        depth,
        length,
        empty_set_store(),
        empty_set_store(),
        step_limited,
    )
}

fn strings(items: &[&str]) -> Vec<String> {
    items.iter().map(|s| s.to_string()).collect()
}

/// Runs the stratum the length cursor names to its end, committing where
/// the engine asks; gives the plans in order.
fn sweep_stratum(engine: &mut Engine, strata: &Strata) -> Vec<CommitPlan> {
    let total = stratum_size(strata, engine.length_progress().length).unwrap();
    engine.begin_stratum();
    let mut plans = Vec::new();
    loop {
        match engine.stratum_step(strata, total, 0) {
            Action::Continue => {}
            Action::Commit(cursor) => plans.push(engine.commit(cursor)),
            Action::Stop(cursor) | Action::Finish(cursor) => {
                plans.push(engine.commit(cursor));
                return plans;
            }
            Action::Done => return plans,
        }
    }
}

#[test]
fn cursors_and_defaults() {
    let p = Progress::start_of_depth(3);
    assert_eq!((p.depth, p.nullary_index, p.unary_index), (3, 0, 0));
    assert_eq!(p.exploration_phase, "exploring_ready");
    assert_eq!((p.nullary_file_index, p.unary_file_index), (0, 0));
    let legacy = Progress { exploration_phase: "exploration_ready".to_string(), ..Progress::start_of_depth(2) };
    assert_eq!(legacy.with_current_phase_names().exploration_phase, "exploring_ready");
    let mid = Progress { exploration_phase: "exploring_new_nullaries".to_string(), ..Progress::start_of_depth(2) };
    assert_eq!(mid.with_current_phase_names().exploration_phase, "exploring_new_nullaries");
    assert!(LengthProgress::initial() == LengthProgress { length: 1, item: 0, complete_through_length: 0 });
    let c = EngineConfig::default();
    assert_eq!((c.batch_keys, c.batch_secs, c.compact_bytes, c.step_limit), (50_000, 30, 4 * 1024 * 1024, 50_000_000));
    let s = Stats::default();
    assert_eq!((s.items, s.evaluations, s.commits, s.compactions), (0, 0, 0, 0));
    let r = RetryReport::default();
    assert_eq!((r.resolved, r.still_limited, r.overflowed, r.rolled_back_to), (0, 0, 0, None));
    assert_eq!(step_limited_path("/project"), "/project/state/step_limited.tsv");
    assert_eq!(render_forms(&set_of(&["^(0)", "R(0)"])), "R(0)\n^(0)\n");
}

#[test]
fn length_sweep_of_the_first_strata() {
    let mut engine = engine_with(quiet_config(1000), LengthProgress::initial(), Progress::start_of_depth(0), BTreeSet::new());
    let mut strata = Strata { nullaries: vec![Vec::new(); 5], unaries: vec![Vec::new(); 5] };

    // Length 1: the base nullary, already known from the seed.
    let plans = sweep_stratum(&mut engine, &strata);
    assert_eq!(plans.len(), 1);
    let plan = &plans[0];
    assert_eq!(plan.frontier_base, "strata");
    assert_eq!(plan.frontier_index, 1);
    assert_eq!(plan.frontier_nullaries, set_of(&["0"]));
    assert!(plan.frontier_unaries.is_empty());
    assert!(plan.evaluations_recent.is_none());
    assert_eq!(plan.manifest.exhaustive_through_length, 1);
    assert!(matches!(plan.cursor, Cursor::Length(p) if p == LengthProgress { length: 2, item: 0, complete_through_length: 1 }));
    assert!(*engine.length_progress() == LengthProgress { length: 2, item: 0, complete_through_length: 1 });
    // A form whose value is already known is not evaluated again.
    assert_eq!((engine.stats.items, engine.stats.dedup_hits, engine.stats.evaluations), (1, 1, 0));
    strata.nullaries[1] = strings(&["0"]);

    // Lengths 2 and 3 hold nothing.
    for length in [2u64, 3] {
        let plans = sweep_stratum(&mut engine, &strata);
        assert_eq!(plans.len(), 1);
        assert_eq!(plans[0].frontier_index, length);
        assert!(plans[0].frontier_nullaries.is_empty());
    }

    // Length 4: ^(0) is new, ^(*) the first unary.
    let plans = sweep_stratum(&mut engine, &strata);
    assert_eq!(plans.len(), 1);
    let plan = &plans[0];
    assert_eq!(plan.frontier_index, 4);
    assert_eq!(plan.frontier_nullaries, set_of(&["^(0)"]));
    assert_eq!(plan.frontier_unaries, set_of(&["^(*)"]));
    assert_eq!(plan.min_index, Some("0\t0\n1\t^(0)\n".to_string()));
    assert_eq!(plan.manifest.exhaustive_through_length, 4);
    assert_eq!(plan.manifest.evaluations_entries, 2);
    assert_eq!(plan.manifest.unaries_entries, 1);
    let recent = plan.evaluations_recent.clone().unwrap();
    let reread = MapStore::from_layers(MapStore::seed_base(), Some(recent)).unwrap();
    assert_eq!(reread.get("^(0)"), Some(1));
    let unaries = SetStore::from_layers(SetStore::seed_base(), plan.unaries_recent.clone()).unwrap();
    assert!(unaries.contains("^(*)"));
    assert_eq!(engine.evaluations_len(), 2);
    assert_eq!(engine.unaries_len(), 1);
    assert_eq!(engine.items_processed(), 3);
}

#[test]
fn budget_stops_a_stratum_and_resumes_it() {
    let mut engine = engine_with(
        quiet_config(1000),
        LengthProgress { length: 4, item: 0, complete_through_length: 3 },
        Progress::start_of_depth(0),
        BTreeSet::new(),
    );
    let mut strata = Strata { nullaries: vec![Vec::new(); 5], unaries: vec![Vec::new(); 5] };
    strata.nullaries[1] = strings(&["0"]);
    engine.set_items_budget(Some(1));
    let plans = sweep_stratum(&mut engine, &strata);
    assert_eq!(plans.len(), 1);
    assert!(matches!(plans[0].cursor, Cursor::Length(p) if p == LengthProgress { length: 4, item: 1, complete_through_length: 3 }));
    assert_eq!(plans[0].frontier_nullaries, set_of(&["^(0)"]));
    assert!(plans[0].frontier_unaries.is_empty());
    assert_eq!(plans[0].manifest.exhaustive_through_length, 3);
    // The next run resumes at the second item.
    engine.set_items_budget(None);
    let plans = sweep_stratum(&mut engine, &strata);
    assert_eq!(plans.len(), 1);
    assert_eq!(plans[0].frontier_unaries, set_of(&["^(*)"]));
    assert!(plans[0].frontier_nullaries.is_empty());
    assert!(*engine.length_progress() == LengthProgress { length: 5, item: 0, complete_through_length: 4 });
}

#[test]
fn commits_come_when_due() {
    let config = EngineConfig { batch_keys: 1, ..quiet_config(1000) };
    let mut engine = engine_with(config, LengthProgress { length: 4, item: 0, complete_through_length: 3 }, Progress::start_of_depth(0), BTreeSet::new());
    let mut strata = Strata { nullaries: vec![Vec::new(); 5], unaries: vec![Vec::new(); 5] };
    strata.nullaries[1] = strings(&["0"]);
    let plans = sweep_stratum(&mut engine, &strata);
    // One commit after each new key, then the stratum's own.
    assert_eq!(plans.len(), 3);
    assert!(matches!(plans[0].cursor, Cursor::Length(p) if p.item == 1 && p.length == 4));
    assert_eq!(plans[0].frontier_index, 4);
    assert!(matches!(plans[1].cursor, Cursor::Length(p) if p.item == 2 && p.length == 4));
    assert!(matches!(plans[2].cursor, Cursor::Length(p) if p.item == 0 && p.length == 5));
    assert_eq!(plans[2].frontier_index, 4);
}

#[test]
fn depth_zero_from_the_seeds() {
    let mut engine = engine_with(quiet_config(1000), LengthProgress::initial(), Progress::start_of_depth(0), BTreeSet::new());
    let chains = Strata { nullaries: vec![strings(&["0"])], unaries: vec![strings(&["^(*)"])] };
    engine.begin_depth();
    let mut plans = Vec::new();
    loop {
        match engine.depth_step(&chains, 0) {
            Action::Continue => {}
            Action::Commit(cursor) => plans.push(engine.commit(cursor)),
            Action::Stop(cursor) | Action::Finish(cursor) => {
                plans.push(engine.commit(cursor));
                break;
            }
            Action::Done => break,
        }
    }
    assert_eq!(plans.len(), 2);
    assert_eq!(plans[0].frontier_base, "chains");
    assert_eq!(plans[0].frontier_index, 1);
    assert_eq!(plans[0].frontier_nullaries, set_of(&["^(0)"]));
    assert_eq!(plans[0].frontier_unaries, set_of(&["R(^(#),0,*)", "R(^(#),*,0)", "^(^(*))"]));
    assert!(matches!(&plans[0].cursor, Cursor::Depth(p) if p.exploration_phase == "exploring_old_nullaries_new_unaries" && p.depth == 0));
    assert_eq!(plans[1].frontier_index, 1);
    assert!(plans[1].frontier_nullaries.is_empty());
    assert!(matches!(&plans[1].cursor, Cursor::Depth(p) if p.exploration_phase == "exploring_ready" && p.depth == 1));
    assert_eq!(engine.depth_progress().depth, 1);
    assert_eq!(engine.unaries_len(), 3);
    let seen = SetStore::from_layers(SetStore::seed_base(), plans[0].seen_unaries_recent.clone()).unwrap();
    assert!(seen.contains("^(^(*))"));
}

#[test]
fn step_limited_forms_are_retried() {
    // R(R(^(#),#,0),0,^(^(^(0)))) applies a looping unary three times.
    let form = "R(R(^(#),#,0),0,^(^(^(0))))";
    let mut strata = Strata { nullaries: vec![Vec::new(); 30], unaries: vec![Vec::new(); 30] };
    strata.nullaries[1] = strings(&["0"]);
    strata.nullaries[10] = strings(&["^(^(^(0)))"]);
    strata.unaries[11] = strings(&["R(^(#),*,0)"]);
    let mut engine = engine_with(
        quiet_config(2),
        LengthProgress { length: 27, item: 0, complete_through_length: 26 },
        Progress::start_of_depth(0),
        BTreeSet::new(),
    );
    let plans = sweep_stratum(&mut engine, &strata);
    assert_eq!(engine.step_limited_count(), 1);
    assert_eq!(plans.last().unwrap().step_limited, Some(format!("{}\n", form)));
    assert!(!plans.iter().any(|p| p.frontier_nullaries.contains(form)));
    assert!(plans.iter().any(|p| p.frontier_nullaries.contains("R(R(^(#),#,0),^(^(^(0))),0)")));

    // A later run with a larger limit resolves it and rolls the sweep back.
    let mut retry = engine_with(
        quiet_config(1000),
        LengthProgress { length: 31, item: 0, complete_through_length: 30 },
        Progress::start_of_depth(0),
        set_of(&[form]),
    );
    let plan = retry.retry_step_limited();
    assert_eq!((plan.report.resolved, plan.report.still_limited, plan.report.overflowed), (1, 0, 0));
    assert_eq!(plan.report.rolled_back_to, Some(27));
    assert!(plan.rolled_back == Some(LengthProgress { length: 28, item: 0, complete_through_length: 27 }));
    assert_eq!(plan.resolved.len(), 1);
    assert_eq!(plan.resolved[0].0, 27);
    assert_eq!(plan.resolved[0].1, set_of(&[form]));
    assert_eq!(plan.step_limited, Some(String::new()));
    assert_eq!(plan.min_index, Some(format!("0\t{}\n", form)));
    assert_eq!(plan.manifest.exhaustive_through_length, 27);
    assert_eq!(plan.manifest.step_limited_forms, 0);
    assert_eq!(retry.step_limited_count(), 0);
    let reread = MapStore::from_layers(MapStore::seed_base(), plan.evaluations_recent.clone()).unwrap();
    assert_eq!(reread.get(form), Some(0));
    assert!(*retry.length_progress() == LengthProgress { length: 28, item: 0, complete_through_length: 27 });
}

#[test]
fn retry_below_the_watermark_keeps_the_cursor() {
    let form = "R(R(^(#),#,0),0,^(^(^(0))))";
    let mut retry = engine_with(
        quiet_config(2),
        LengthProgress { length: 31, item: 0, complete_through_length: 30 },
        Progress::start_of_depth(0),
        set_of(&[form]),
    );
    let plan = retry.retry_step_limited();
    assert_eq!((plan.report.resolved, plan.report.still_limited), (0, 1));
    assert_eq!(plan.report.rolled_back_to, None);
    assert!(plan.rolled_back.is_none());
    assert!(plan.resolved.is_empty());
    assert_eq!(retry.step_limited_count(), 1);
    assert!(*retry.length_progress() == LengthProgress { length: 31, item: 0, complete_through_length: 30 });
}

#[test]
fn resolved_forms_above_the_watermark_roll_nothing_back() {
    let form = "R(R(^(#),#,0),0,^(^(^(0))))";
    let mut retry = engine_with(
        quiet_config(1000),
        LengthProgress { length: 20, item: 5, complete_through_length: 19 },
        Progress::start_of_depth(0),
        set_of(&[form]),
    );
    let plan = retry.retry_step_limited();
    assert_eq!(plan.report.resolved, 1);
    assert_eq!(plan.report.rolled_back_to, None);
    assert!(plan.rolled_back.is_none());
    assert!(*retry.length_progress() == LengthProgress { length: 20, item: 5, complete_through_length: 19 });
    assert_eq!(plan.manifest.exhaustive_through_length, 19);
}

#[test]
fn replayed_stored_form_is_indexed() {
    // The seed store knows "0" while the index is empty, as after a crash
    // between the store write and the index write: sweeping its stratum
    // again puts it in the index.
    let mut engine = engine_with(quiet_config(1000), LengthProgress::initial(), Progress::start_of_depth(0), BTreeSet::new());
    let strata = Strata { nullaries: vec![Vec::new(); 5], unaries: vec![Vec::new(); 5] };
    assert_eq!(engine.values_indexed(), 0);
    let plans = sweep_stratum(&mut engine, &strata);
    assert_eq!(plans.len(), 1);
    assert_eq!(plans[0].min_index, Some("0\t0\n".to_string()));
    assert_eq!(engine.values_indexed(), 1);
    assert_eq!((engine.stats.items, engine.stats.dedup_hits, engine.stats.evaluations), (1, 1, 0));
}
