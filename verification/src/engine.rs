//! The exploration engine: cursors, configuration, counters, and the
//! decisions it makes between reading and writing the stores.
use std::collections::{BTreeMap, BTreeSet, HashMap};
use vstd::prelude::*;
use crate::collections::{
    empty_text_entries, empty_texts, text_entries, text_entries_clear, text_entries_get,
    text_entries_insert, text_entries_len, texts, texts_clear, texts_contain, texts_insert,
    texts_len, texts_remove,
};
use crate::evaluator::{evaluate_with_memo, memo_get, nullary_spec, result_view, text_map, EvalError, EvalLookup};
use crate::form::{all_ascii, Failure};
use crate::grammar::{apply_unary, freeze, freeze_text, lemma_ascii_forms, replace_first_star_text, rform, rform_text, wrap, wrap_text};
use crate::meaning::{law_failures_are_sound, law_memo_only_grows, lemma_lookups_agree};
use crate::store::{law_offer_keeps_shortest, offered, tsv_of, MapStore, MinIndex, SetStore};
use crate::layers::{map_layer_decoded, set_layer_decoded};
use crate::synthesis::{stratum_item, stratum_items, Strata};
use crate::collections::{lists_texts, texts_in_order, views_of_strings};
use crate::text::{bytes_of_texts, keyed_by_bytes};
use crate::text::{
    lemma_pieces_extend, lemma_shortlex_total, lemma_shortlex_transitive, lines_spec, newline_pieces,
    nonblank_trimmed_lines, shortlex_le, trim_spec, utf8, without_cr,
};

verus! {

pub open spec fn phase_ready() -> Seq<char> {
    "exploring_ready"@
}

pub open spec fn phase_new_nullaries() -> Seq<char> {
    "exploring_new_nullaries_all_unaries"@
}

pub open spec fn phase_old_nullaries() -> Seq<char> {
    "exploring_old_nullaries_new_unaries"@
}

/// The phase name an old default wrote for the ready phase.
pub open spec fn legacy_phase_ready() -> Seq<char> {
    "exploration_ready"@
}

/// The ready phase: a depth whose pairs have not been started.
pub fn phase_ready_text() -> (r: String)
    ensures
        r@ == phase_ready(),
{
    "exploring_ready".to_string()
}

/// Phase one: this depth's nullaries against every unary frontier.
pub fn phase_new_nullaries_text() -> (r: String)
    ensures
        r@ == phase_new_nullaries(),
{
    "exploring_new_nullaries_all_unaries".to_string()
}

/// Phase two: this depth's unaries against the older nullary frontiers.
pub fn phase_old_nullaries_text() -> (r: String)
    ensures
        r@ == phase_old_nullaries(),
{
    "exploring_old_nullaries_new_unaries".to_string()
}

/// Depth (generation) mode cursor. Indices name the NEXT pair to process.
#[derive(Debug)]
pub struct Progress {
    pub depth: u64,
    pub nullary_index: u64,
    pub unary_index: u64,
    pub exploration_phase: String,
    pub nullary_file_index: u64,
    pub unary_file_index: u64,
}

impl Progress {
    /// The cursor at the start of `depth`: ready, every index zero.
    pub fn start_of_depth(depth: u64) -> (r: Self)
        ensures
            r.depth == depth,
            r.nullary_index == 0,
            r.unary_index == 0,
            r.exploration_phase@ == phase_ready(),
            r.nullary_file_index == 0,
            r.unary_file_index == 0,
    {
        Progress {
            depth,
            nullary_index: 0,
            unary_index: 0,
            exploration_phase: phase_ready_text(),
            nullary_file_index: 0,
            unary_file_index: 0,
        }
    }

    /// A loaded cursor with the legacy name of the ready phase replaced by
    /// the current one; every other cursor is kept as it is.
    pub fn with_current_phase_names(self) -> (r: Self)
        ensures
            r.exploration_phase@ == (if self.exploration_phase@ == legacy_phase_ready() {
                phase_ready()
            } else {
                self.exploration_phase@
            }),
            r.depth == self.depth,
            r.nullary_index == self.nullary_index,
            r.unary_index == self.unary_index,
            r.nullary_file_index == self.nullary_file_index,
            r.unary_file_index == self.unary_file_index,
    {
        let mut progress = self;
        if text_equals(progress.exploration_phase.as_str(), "exploration_ready") {
            progress.exploration_phase = phase_ready_text();
        }
        progress
    }
}

/// Whether two texts have the same characters.
pub fn text_equals(a: &str, b: &str) -> (r: bool)
    ensures
        r == (a@ == b@),
{
    let x = crate::form::chars_of(a);
    let y = crate::form::chars_of(b);
    if x.len() != y.len() {
        return false;
    }
    let mut i: usize = 0;
    while i < x.len()
        invariant
            x@ == a@,
            y@ == b@,
            x.len() == y.len(),
            0 <= i <= x.len(),
            forall|j: int| 0 <= j < i ==> x@[j] == y@[j],
        decreases x.len() - i,
    {
        if x[i] != y[i] {
            return false;
        }
        i = i + 1;
    }
    assert(x@ =~= y@);
    true
}

/// Length (exhaustive) mode cursor. Stratum `length` is being synthesized;
/// `item` counts fully-processed synthesis items within it.
/// `complete_through_length`: every well-formed form of length <= this has
/// been enumerated and evaluated.
#[derive(Debug, Clone, Copy, PartialEq, Eq, Structural)]
pub struct LengthProgress {
    pub length: u64,
    pub item: u64,
    pub complete_through_length: u64,
}

impl LengthProgress {
    /// The cursor of a sweep that has not started: stratum 1, nothing done.
    pub fn initial() -> (r: Self)
        ensures
            r.length == 1,
            r.item == 0,
            r.complete_through_length == 0,
    {
        LengthProgress { length: 1, item: 0, complete_through_length: 0 }
    }
}

#[derive(Debug, Clone, Copy, PartialEq, Eq, Structural)]
pub enum Mode {
    Length,
    Depth,
}

#[derive(Debug)]
pub struct EngineConfig {
    pub batch_keys: usize,
    pub batch_secs: u64,
    pub compact_bytes: u64,
    pub step_limit: u64,
}

impl Default for EngineConfig {
    fn default() -> (r: Self)
        ensures
            r.batch_keys == 50_000,
            r.batch_secs == 30,
            r.compact_bytes == 4 * 1024 * 1024,
            r.step_limit == 50_000_000,
    {
        EngineConfig {
            batch_keys: 50_000,
            batch_secs: 30,
            compact_bytes: 4 * 1024 * 1024,
            step_limit: 50_000_000,
        }
    }
}

#[derive(Debug)]
pub struct Stats {
    pub items: u64,
    pub dedup_hits: u64,
    pub evaluations: u64,
    pub overflows: u64,
    pub step_limited: u64,
    pub new_evaluations: u64,
    pub new_unaries: u64,
    pub commits: u64,
    pub compactions: u64,
}

/// Counters that have counted nothing yet.
pub open spec fn fresh_stats() -> Stats {
    Stats {
        items: 0,
        dedup_hits: 0,
        evaluations: 0,
        overflows: 0,
        step_limited: 0,
        new_evaluations: 0,
        new_unaries: 0,
        commits: 0,
        compactions: 0,
    }
}

impl Default for Stats {
    fn default() -> (r: Self)
        ensures
            r == fresh_stats(),
    {
        Stats {
            items: 0,
            dedup_hits: 0,
            evaluations: 0,
            overflows: 0,
            step_limited: 0,
            new_evaluations: 0,
            new_unaries: 0,
            commits: 0,
            compactions: 0,
        }
    }
}

#[derive(Debug, PartialEq, Eq, Structural)]
pub enum RunOutcome {
    Completed,
    BudgetExhausted,
}

#[derive(Debug)]
pub struct RetryReport {
    pub resolved: u64,
    pub still_limited: u64,
    pub overflowed: u64,
    pub rolled_back_to: Option<u64>,
}

impl Default for RetryReport {
    fn default() -> (r: Self)
        ensures
            r.resolved == 0,
            r.still_limited == 0,
            r.overflowed == 0,
            r.rolled_back_to is None,
    {
        RetryReport { resolved: 0, still_limited: 0, overflowed: 0, rolled_back_to: None }
    }
}

/// A counter one higher, wrapping past the largest `u64` as a release build
/// of `+= 1` does.
pub open spec fn bump(x: u64) -> u64 {
    if x == u64::MAX {
        0
    } else {
        (x + 1) as u64
    }
}

fn bumped(x: u64) -> (r: u64)
    ensures
        r == bump(x),
{
    if x == u64::MAX {
        0
    } else {
        x + 1
    }
}

/// Values known before evaluating: the batch not yet committed, then the
/// store.
pub struct TieredLookup<'a> {
    store: &'a MapStore,
    pending: &'a BTreeMap<String, u64>,
}

impl<'a> TieredLookup<'a> {
    /// The store is intact, so that its lookups can be relied on.
    #[verifier::type_invariant]
    closed spec fn store_intact(self) -> bool {
        self.store.intact()
    }

    /// The store consulted after the pending batch.
    pub closed spec fn store_view(&self) -> MapStore {
        *self.store
    }

    /// The pending batch, consulted first.
    pub closed spec fn pending_view(&self) -> Map<Seq<char>, u64> {
        text_entries(self.pending)
    }

    /// Known values from `pending`, then from an intact `store`.
    pub fn new(store: &'a MapStore, pending: &'a BTreeMap<String, u64>) -> (r: Self)
        requires
            store.intact(),
        ensures
            r.store_view() == *store,
            r.pending_view() == text_entries(pending),
    {
        TieredLookup { store, pending }
    }
}

impl EvalLookup for TieredLookup<'_> {
    closed spec fn spec_lookup(&self, key: Seq<char>) -> Option<u64> {
        match text_entries(self.pending).get(key) {
            Some(v) => Some(v),
            None => self.store.contents().get(utf8(key)),
        }
    }

    fn lookup(&self, key: &str) -> (r: Option<u64>) {
        proof {
            use_type_invariant(self);
        }
        match text_entries_get(self.pending, key) {
            Some(v) => Some(v),
            None => self.store.get(key),
        }
    }
}

/// The state of an engine as values: what it has learned and what it holds
/// to commit next.
pub ghost struct EngineModel {
    /// Values of forms evaluated so far.
    pub memo: Map<Seq<char>, u64>,
    /// The value store, by UTF-8 key.
    pub known: Map<Seq<u8>, u64>,
    /// The unary store, by UTF-8 key.
    pub unaries: Set<Seq<u8>>,
    /// Forms depth mode has placed in a frontier.
    pub seen_nullaries: Set<Seq<u8>>,
    pub seen_unaries: Set<Seq<u8>>,
    /// Forms whose evaluation failed for good (overflow, malformed).
    pub failed: Set<Seq<char>>,
    /// Forms whose evaluation ran out of steps.
    pub step_limited: Set<Seq<char>>,
    pub step_limited_dirty: bool,
    pub pending_evaluations: Map<Seq<char>, u64>,
    pub pending_unaries: Set<Seq<char>>,
    pub pending_frontier_nullaries: Set<Seq<char>>,
    pub pending_frontier_unaries: Set<Seq<char>>,
    pub pending_seen_nullaries: Set<Seq<char>>,
    pub pending_seen_unaries: Set<Seq<char>>,
    pub min_index: Map<u64, Seq<char>>,
    pub stats: Stats,
}

impl EngineModel {
    /// Whether the value of a nullary is already known: memoised, pending or
    /// stored.
    pub open spec fn value_known(self, form: Seq<char>) -> bool {
        self.memo.contains_key(form) || self.pending_evaluations.contains_key(form)
            || self.known.contains_key(utf8(form))
    }

    /// The value a nullary is known by: the memo's, else the pending batch's,
    /// else the store's (meaningful when `value_known`).
    pub open spec fn known_value(self, form: Seq<char>) -> u64 {
        if self.memo.contains_key(form) {
            self.memo[form]
        } else if self.pending_evaluations.contains_key(form) {
            self.pending_evaluations[form]
        } else {
            self.known[utf8(form)]
        }
    }

    /// Whether a form was already given up on.
    pub open spec fn given_up(self, form: Seq<char>) -> bool {
        self.failed.contains(form) || self.step_limited.contains(form)
    }

    /// The model after recording that `form` failed to evaluate.
    pub open spec fn after_failure(self, form: Seq<char>, e: Failure) -> EngineModel {
        if e is StepLimit {
            EngineModel {
                step_limited: self.step_limited.insert(form),
                step_limited_dirty: true,
                stats: Stats { step_limited: bump(self.stats.step_limited), ..self.stats },
                ..self
            }
        } else {
            EngineModel {
                failed: self.failed.insert(form),
                stats: Stats { overflows: bump(self.stats.overflows), ..self.stats },
                ..self
            }
        }
    }

    /// The model after an evaluation of `form` with the given outcome (the
    /// result and the memo after it): the count of evaluations grows, and a
    /// value goes to the index and the pending batch.
    pub open spec fn after_evaluation(
        self,
        form: Seq<char>,
        outcome: (Result<u64, Failure>, Map<Seq<char>, u64>),
    ) -> EngineModel {
        let counted = EngineModel {
            memo: outcome.1,
            stats: Stats { evaluations: bump(self.stats.evaluations), ..self.stats },
            ..self
        };
        match outcome.0 {
            Ok(v) => EngineModel {
                min_index: offered(counted.min_index, v, form),
                pending_evaluations: counted.pending_evaluations.insert(form, v),
                stats: Stats { new_evaluations: bump(counted.stats.new_evaluations), ..counted.stats },
                ..counted
            },
            Err(e) => counted.after_failure(form, e),
        }
    }

    /// The model after one more item.
    pub open spec fn counted_item(self) -> EngineModel {
        EngineModel { stats: Stats { items: bump(self.stats.items), ..self.stats }, ..self }
    }

    /// The model after one more dedup hit.
    pub open spec fn counted_dedup(self) -> EngineModel {
        EngineModel { stats: Stats { dedup_hits: bump(self.stats.dedup_hits), ..self.stats }, ..self }
    }

    /// Depth mode places a nullary in the next frontier the first time it
    /// produces it.
    pub open spec fn after_depth_nullary(self, form: Seq<char>) -> EngineModel {
        if !self.seen_nullaries.contains(utf8(form)) && !self.pending_seen_nullaries.contains(form) {
            EngineModel {
                pending_frontier_nullaries: self.pending_frontier_nullaries.insert(form),
                pending_seen_nullaries: self.pending_seen_nullaries.insert(form),
                ..self
            }
        } else {
            self
        }
    }

    /// A unary joins the pending unaries unless the store or the batch has it.
    pub open spec fn after_new_unary(self, form: Seq<char>) -> EngineModel {
        if !self.unaries.contains(utf8(form)) && !self.pending_unaries.contains(form) {
            EngineModel {
                pending_unaries: self.pending_unaries.insert(form),
                stats: Stats { new_unaries: bump(self.stats.new_unaries), ..self.stats },
                ..self
            }
        } else {
            self.counted_dedup()
        }
    }

    /// A nullary of the stratum being synthesized, given the outcome of
    /// evaluating it from this state: it is counted; one given up on is a
    /// dedup hit; one whose value is known is a dedup hit that is offered to
    /// the index with that value (so that a form stored before a crash left
    /// it out of the index is indexed when its stratum is replayed) and still
    /// joins the stratum; otherwise it is evaluated, and joins the stratum if
    /// it has a value.
    pub open spec fn after_stratum_nullary(
        self,
        form: Seq<char>,
        outcome: (Result<u64, Failure>, Map<Seq<char>, u64>),
    ) -> EngineModel {
        let m = self.counted_item();
        if m.given_up(form) {
            m.counted_dedup()
        } else if m.value_known(form) {
            let d = m.counted_dedup();
            EngineModel {
                min_index: offered(d.min_index, d.known_value(form), form),
                pending_frontier_nullaries: d.pending_frontier_nullaries.insert(form),
                ..d
            }
        } else {
            let e = m.after_evaluation(form, outcome);
            if outcome.0 is Ok {
                EngineModel { pending_frontier_nullaries: e.pending_frontier_nullaries.insert(form), ..e }
            } else {
                e
            }
        }
    }

    /// A unary of the stratum being synthesized: it is counted, joins the
    /// pending unaries if new, and joins the stratum.
    pub open spec fn after_stratum_unary(self, form: Seq<char>) -> EngineModel {
        let m = self.counted_item().after_new_unary(form);
        EngineModel { pending_frontier_unaries: m.pending_frontier_unaries.insert(form), ..m }
    }

    /// One (unary, nullary) pair of depth mode, given the outcome of
    /// evaluating the unary applied to the nullary from this state: the
    /// application is handled as a nullary (joining the next frontier the
    /// first time depth mode produces it), then the three unaries the pair
    /// yields are offered in turn.
    pub open spec fn after_pair(
        self,
        unary: Seq<char>,
        nullary: Seq<char>,
        outcome: (Result<u64, Failure>, Map<Seq<char>, u64>),
    ) -> EngineModel {
        let candidate = apply_unary(unary, nullary);
        let m = self.counted_item();
        let m2 = if m.given_up(candidate) {
            m.counted_dedup()
        } else if m.value_known(candidate) {
            let d = m.counted_dedup();
            EngineModel { min_index: offered(d.min_index, d.known_value(candidate), candidate), ..d }.after_depth_nullary(
                candidate,
            )
        } else {
            let e = m.after_evaluation(candidate, outcome);
            if outcome.0 is Ok {
                e.after_depth_nullary(candidate)
            } else {
                e
            }
        };
        let frozen = freeze(unary);
        m2.after_depth_unary(rform(frozen, nullary, "*"@)).after_depth_unary(
            rform(frozen, "*"@, nullary),
        ).after_depth_unary(wrap(unary))
    }

    /// Depth mode offers a candidate unary: one already seen is a dedup hit;
    /// otherwise it joins the pending unaries (if new), the next frontier and
    /// the seen set.
    pub open spec fn after_depth_unary(self, form: Seq<char>) -> EngineModel {
        if self.seen_unaries.contains(utf8(form)) || self.pending_seen_unaries.contains(form) {
            self.counted_dedup()
        } else {
            let m = if !self.unaries.contains(utf8(form)) && !self.pending_unaries.contains(form) {
                EngineModel {
                    pending_unaries: self.pending_unaries.insert(form),
                    stats: Stats { new_unaries: bump(self.stats.new_unaries), ..self.stats },
                    ..self
                }
            } else {
                self
            };
            EngineModel {
                pending_frontier_unaries: m.pending_frontier_unaries.insert(form),
                pending_seen_unaries: m.pending_seen_unaries.insert(form),
                ..m
            }
        }
    }
}

/// The exploration engine: its stores, cursors, and the batches it holds
/// until the next commit. Reading and writing files is left to the caller;
/// the engine says what to write (see `CommitPlan`).
pub struct Engine {
    root: String,
    config: EngineConfig,
    evaluations: MapStore,
    unaries: SetStore,
    min_index: MinIndex,
    depth_progress: Progress,
    length_progress: LengthProgress,
    depth_seen_nullaries: SetStore,
    depth_seen_unaries: SetStore,
    memo: HashMap<String, u64>,
    failed: BTreeSet<String>,
    step_limited: BTreeSet<String>,
    step_limited_dirty: bool,
    pending_evaluations: BTreeMap<String, u64>,
    pending_unaries: BTreeSet<String>,
    pending_frontier_nullaries: BTreeSet<String>,
    pending_frontier_unaries: BTreeSet<String>,
    pending_seen_nullaries: BTreeSet<String>,
    pending_seen_unaries: BTreeSet<String>,
    pub stats: Stats,
    items_budget: Option<u64>,
    /// Position of the next item of the stratum being synthesized.
    next_item: u64,
    /// Position of the next pair of the depth being explored.
    depth_position: Progress,
}

impl Engine {
    /// The engine's state as values.
    pub closed spec fn model(&self) -> EngineModel {
        EngineModel {
            memo: text_map(&self.memo),
            known: self.evaluations.contents(),
            unaries: self.unaries.contents(),
            seen_nullaries: self.depth_seen_nullaries.contents(),
            seen_unaries: self.depth_seen_unaries.contents(),
            failed: texts(&self.failed),
            step_limited: texts(&self.step_limited),
            step_limited_dirty: self.step_limited_dirty,
            pending_evaluations: text_entries(&self.pending_evaluations),
            pending_unaries: texts(&self.pending_unaries),
            pending_frontier_nullaries: texts(&self.pending_frontier_nullaries),
            pending_frontier_unaries: texts(&self.pending_frontier_unaries),
            pending_seen_nullaries: texts(&self.pending_seen_nullaries),
            pending_seen_unaries: texts(&self.pending_seen_unaries),
            min_index: self.min_index@,
            stats: self.stats,
        }
    }

    /// The bound on unary applications per evaluation.
    pub closed spec fn step_limit(&self) -> u64 {
        self.config.step_limit
    }

    /// The configuration the engine runs with.
    pub closed spec fn settings(&self) -> EngineConfig {
        self.config
    }

    /// The items one run may process, if bounded.
    pub closed spec fn budget(&self) -> Option<u64> {
        self.items_budget
    }

    /// The depth-mode cursor as last committed.
    pub closed spec fn depth_cursor(&self) -> Progress {
        self.depth_progress
    }

    /// The length-mode cursor as last committed.
    pub closed spec fn length_cursor(&self) -> LengthProgress {
        self.length_progress
    }

    /// The position of the next item of the stratum being synthesized.
    pub closed spec fn stratum_position(&self) -> u64 {
        self.next_item
    }

    /// The project root the engine was opened on.
    pub closed spec fn root_path(&self) -> Seq<char> {
        self.root@
    }

    /// What evaluating a nullary from this state gives: the result, the memo
    /// after it, and the steps taken (the batch not yet committed, then the
    /// store, are consulted after the memo).
    pub closed spec fn evaluation(&self, form: Seq<char>) -> (Result<u64, Failure>, Map<Seq<char>, u64>, u64) {
        nullary_spec(
            TieredLookup { store: &self.evaluations, pending: &self.pending_evaluations },
            Some(self.config.step_limit),
            text_map(&self.memo),
            0,
            form,
        )
    }

    /// An engine over stores and cursors read by the caller, with empty
    /// batches and fresh counters.
    pub fn new(
        root: String,
        config: EngineConfig,
        evaluations: MapStore,
        unaries: SetStore,
        min_index: MinIndex,
        depth_progress: Progress,
        length_progress: LengthProgress,
        depth_seen_nullaries: SetStore,
        depth_seen_unaries: SetStore,
        step_limited: BTreeSet<String>,
    ) -> (r: Self)
        ensures
            r.model().memo.is_empty(),
            r.model().known == evaluations.contents(),
            r.model().unaries == unaries.contents(),
            r.model().seen_nullaries == depth_seen_nullaries.contents(),
            r.model().seen_unaries == depth_seen_unaries.contents(),
            r.model().failed.is_empty(),
            r.model().step_limited == texts(&step_limited),
            !r.model().step_limited_dirty,
            r.model().pending_evaluations.is_empty(),
            r.model().pending_unaries.is_empty(),
            r.model().pending_frontier_nullaries.is_empty(),
            r.model().pending_frontier_unaries.is_empty(),
            r.model().pending_seen_nullaries.is_empty(),
            r.model().pending_seen_unaries.is_empty(),
            r.model().min_index == min_index@,
            r.model().stats == fresh_stats(),
            r.settings() == config,
            r.depth_cursor() == depth_progress,
            r.length_cursor() == length_progress,
            r.budget() is None,
            r.root_path() == root@,
            r.stores_intact() <==> evaluations.intact() && unaries.intact() && depth_seen_nullaries.intact()
                && depth_seen_unaries.intact(),
    {
        let memo: HashMap<String, u64> = HashMap::new();
        let depth_position = depth_progress.copy_of();
        let r = Engine {
            root,
            config,
            evaluations,
            unaries,
            min_index,
            depth_progress,
            length_progress,
            depth_seen_nullaries,
            depth_seen_unaries,
            memo,
            failed: empty_texts(),
            step_limited,
            step_limited_dirty: false,
            pending_evaluations: empty_text_entries(),
            pending_unaries: empty_texts(),
            pending_frontier_nullaries: empty_texts(),
            pending_frontier_unaries: empty_texts(),
            pending_seen_nullaries: empty_texts(),
            pending_seen_unaries: empty_texts(),
            stats: Stats::default(),
            items_budget: None,
            next_item: 0,
            depth_position,
        };
        proof {
            reveal(vstd::std_specs::hash::hash_map_deep_view_impl);
        }
        assert(r.model().memo =~= Map::<Seq<char>, u64>::empty());
        r
    }
}

/// The parts of an engine no decision on a single form changes.
pub open spec fn same_frame(a: &Engine, b: &Engine) -> bool {
    &&& a.stores_intact() == b.stores_intact()
    &&& a.settings() == b.settings()
    &&& a.depth_cursor() == b.depth_cursor()
    &&& a.length_cursor() == b.length_cursor()
    &&& a.budget() == b.budget()
    &&& a.stratum_position() == b.stratum_position()
    &&& a.root_path() == b.root_path()
}

impl Engine {
    /// Evaluates a nullary from the engine's memo, pending batch and store,
    /// under its step limit.
    fn evaluate(&mut self, form: &str) -> (r: Result<u64, EvalError>)
        requires
            old(self).stores_intact(),
            all_ascii(form@),
        ensures
            final(self).stores_intact(),
            result_view(r) == old(self).evaluation(form@).0,
            final(self).model() == (EngineModel {
                memo: old(self).evaluation(form@).1,
                stats: Stats { evaluations: bump(old(self).model().stats.evaluations), ..old(self).model().stats },
                ..old(self).model()
            }),
            same_frame(final(self), old(self)),
            final(self).value_store() == old(self).value_store(),
            final(self).index_dirty() == old(self).index_dirty(),
    {
        self.stats.evaluations = bumped(self.stats.evaluations);
        let mut taken: HashMap<String, u64> = HashMap::new();
        std::mem::swap(&mut taken, &mut self.memo);
        let lookup = TieredLookup { store: &self.evaluations, pending: &self.pending_evaluations };
        let limit = self.config.step_limit;
        proof {
            law_failures_are_sound(lookup, Some(limit), text_map(&taken), 0, form@);
        }
        let (r, after) = evaluate_with_memo(&lookup, taken, limit, form);
        self.memo = after;
        r
    }
}

/// The first two parts of an evaluation outcome: the result and the memo.
pub open spec fn result_and_memo(o: (Result<u64, Failure>, Map<Seq<char>, u64>, u64)) -> (
    Result<u64, Failure>,
    Map<Seq<char>, u64>,
) {
    (o.0, o.1)
}

impl Engine {
    /// Records why a form failed: running out of steps is remembered for a
    /// retry with more budget, any other failure is final.
    fn record_failure(&mut self, form: String, error: EvalError)
        ensures
            final(self).model() == old(self).model().after_failure(form@, error@),
            same_frame(final(self), old(self)),
            final(self).evaluation_inputs_unchanged(old(self)),
    {
        match error {
            EvalError::StepLimit(_) => {
                texts_insert(&mut self.step_limited, form);
                self.step_limited_dirty = true;
                self.stats.step_limited = bumped(self.stats.step_limited);
            },
            _ => {
                texts_insert(&mut self.failed, form);
                self.stats.overflows = bumped(self.stats.overflows);
            },
        }
    }

    /// Whether the stores, the batch and the memo that an evaluation consults
    /// are those of `other`.
    pub closed spec fn evaluation_inputs_unchanged(&self, other: &Engine) -> bool {
        &&& self.evaluations == other.evaluations
        &&& self.pending_evaluations == other.pending_evaluations
        &&& self.memo == other.memo
        &&& self.config == other.config
    }

    /// The value of a nullary if it is already known: memoised, else pending,
    /// else stored.
    fn nullary_value_known(&self, form: &str) -> (r: Option<u64>)
        requires
            self.stores_intact(),
        ensures
            r is Some <==> self.model().value_known(form@),
            r matches Some(v) ==> v == self.model().known_value(form@),
    {
        if let Some(v) = memo_get(&self.memo, form) {
            return Some(v);
        }
        if let Some(v) = text_entries_get(&self.pending_evaluations, form) {
            return Some(v);
        }
        self.evaluations.get(form)
    }

    /// One nullary of the stratum being synthesized.
    fn process_stratum_nullary(&mut self, form: String)
        requires
            old(self).stores_intact(),
            all_ascii(form@),
        ensures
            final(self).model() == old(self).model().after_stratum_nullary(
                form@,
                result_and_memo(old(self).evaluation(form@)),
            ),
            same_frame(final(self), old(self)),
    {
        self.stats.items = bumped(self.stats.items);
        if texts_contain(&self.failed, form.as_str()) || texts_contain(&self.step_limited, form.as_str()) {
            self.stats.dedup_hits = bumped(self.stats.dedup_hits);
            return;
        }
        if let Some(value) = self.nullary_value_known(form.as_str()) {
            self.stats.dedup_hits = bumped(self.stats.dedup_hits);
            self.min_index.offer(value, form.as_str());
            texts_insert(&mut self.pending_frontier_nullaries, form);
            return;
        }
        let ghost before = self.model();
        let ghost outcome = self.evaluation(form@);
        match self.evaluate(form.as_str()) {
            Ok(value) => {
                self.min_index.offer(value, form.as_str());
                text_entries_insert(&mut self.pending_evaluations, form.clone(), value);
                texts_insert(&mut self.pending_frontier_nullaries, form);
                self.stats.new_evaluations = bumped(self.stats.new_evaluations);
            },
            Err(error) => {
                self.record_failure(form, error);
            },
        }
    }

    /// One unary of the stratum being synthesized.
    fn process_stratum_unary(&mut self, form: String)
        requires
            old(self).stores_intact(),
        ensures
            final(self).model() == old(self).model().after_stratum_unary(form@),
            same_frame(final(self), old(self)),
    {
        self.stats.items = bumped(self.stats.items);
        if !self.unaries.contains(form.as_str()) && !texts_contain(&self.pending_unaries, form.as_str()) {
            texts_insert(&mut self.pending_unaries, form.clone());
            self.stats.new_unaries = bumped(self.stats.new_unaries);
        } else {
            self.stats.dedup_hits = bumped(self.stats.dedup_hits);
        }
        texts_insert(&mut self.pending_frontier_unaries, form);
    }
}

impl Engine {
    /// Depth mode places a nullary in the next frontier the first time it
    /// produces it.
    fn mark_depth_frontier_nullary(&mut self, candidate: String)
        requires
            old(self).stores_intact(),
        ensures
            final(self).model() == old(self).model().after_depth_nullary(candidate@),
            same_frame(final(self), old(self)),
    {
        if !self.depth_seen_nullaries.contains(candidate.as_str()) && !texts_contain(
            &self.pending_seen_nullaries,
            candidate.as_str(),
        ) {
            texts_insert(&mut self.pending_frontier_nullaries, candidate.clone());
            texts_insert(&mut self.pending_seen_nullaries, candidate);
        }
    }

    /// Depth mode offers one candidate unary.
    fn offer_depth_unary(&mut self, candidate: String)
        requires
            old(self).stores_intact(),
        ensures
            final(self).model() == old(self).model().after_depth_unary(candidate@),
            same_frame(final(self), old(self)),
    {
        if self.depth_seen_unaries.contains(candidate.as_str()) || texts_contain(
            &self.pending_seen_unaries,
            candidate.as_str(),
        ) {
            self.stats.dedup_hits = bumped(self.stats.dedup_hits);
            return;
        }
        if !self.unaries.contains(candidate.as_str()) && !texts_contain(
            &self.pending_unaries,
            candidate.as_str(),
        ) {
            texts_insert(&mut self.pending_unaries, candidate.clone());
            self.stats.new_unaries = bumped(self.stats.new_unaries);
        }
        texts_insert(&mut self.pending_frontier_unaries, candidate.clone());
        texts_insert(&mut self.pending_seen_unaries, candidate);
    }

    /// One (unary, nullary) pair of depth mode. The frontier gate is what
    /// depth mode has seen, not the value store: a form whose value the
    /// length sweep already found must still join a depth frontier the first
    /// time depth mode produces it.
    fn process_pair(&mut self, unary: &str, nullary: &str)
        requires
            old(self).stores_intact(),
            all_ascii(unary@),
            all_ascii(nullary@),
        ensures
            final(self).model() == old(self).model().after_pair(
                unary@,
                nullary@,
                result_and_memo(old(self).evaluation(apply_unary(unary@, nullary@))),
            ),
            same_frame(final(self), old(self)),
    {
        proof {
            lemma_ascii_forms(unary@, nullary@, nullary@);
        }
        self.stats.items = bumped(self.stats.items);
        let candidate = replace_first_star_text(unary, nullary);
        if texts_contain(&self.failed, candidate.as_str()) || texts_contain(
            &self.step_limited,
            candidate.as_str(),
        ) {
            self.stats.dedup_hits = bumped(self.stats.dedup_hits);
        } else if let Some(value) = self.nullary_value_known(candidate.as_str()) {
            self.stats.dedup_hits = bumped(self.stats.dedup_hits);
            self.min_index.offer(value, candidate.as_str());
            self.mark_depth_frontier_nullary(candidate);
        } else {
            match self.evaluate(candidate.as_str()) {
                Ok(value) => {
                    self.min_index.offer(value, candidate.as_str());
                    text_entries_insert(&mut self.pending_evaluations, candidate.clone(), value);
                    self.stats.new_evaluations = bumped(self.stats.new_evaluations);
                    self.mark_depth_frontier_nullary(candidate);
                },
                Err(error) => {
                    self.record_failure(candidate, error);
                },
            }
        }
        let frozen = freeze_text(unary);
        proof {
            reveal_strlit("*");
        }
        self.offer_depth_unary(rform_text(frozen.as_str(), nullary, "*"));
        self.offer_depth_unary(rform_text(frozen.as_str(), "*", nullary));
        self.offer_depth_unary(wrap_text(unary));
    }

    /// Whether this run has processed as many items as it may.
    fn budget_exhausted(&self) -> (r: bool)
        ensures
            r == self.budget_spent(),
    {
        match self.items_budget {
            Some(budget) => self.stats.items >= budget,
            None => false,
        }
    }

    /// Whether a batch is due: enough pending keys, or enough time since the
    /// last commit.
    pub fn commit_due(&self, seconds_since_commit: u64) -> (r: bool)
        ensures
            r == (self.model().pending_evaluations.len() + self.model().pending_unaries.len()
                >= self.settings().batch_keys || seconds_since_commit >= self.settings().batch_secs),
    {
        let pending = (text_entries_len(&self.pending_evaluations) as u128) + (texts_len(
            &self.pending_unaries,
        ) as u128);
        pending >= self.config.batch_keys as u128 || seconds_since_commit >= self.config.batch_secs
    }
}

/// Whether two depth cursors hold the same values.
pub open spec fn same_progress(a: Progress, b: Progress) -> bool {
    &&& a.depth == b.depth
    &&& a.nullary_index == b.nullary_index
    &&& a.unary_index == b.unary_index
    &&& a.exploration_phase@ == b.exploration_phase@
    &&& a.nullary_file_index == b.nullary_file_index
    &&& a.unary_file_index == b.unary_file_index
}

impl Progress {
    /// A copy of the cursor.
    pub fn copy_of(&self) -> (r: Progress)
        ensures
            same_progress(r, *self),
    {
        Progress {
            depth: self.depth,
            nullary_index: self.nullary_index,
            unary_index: self.unary_index,
            exploration_phase: self.exploration_phase.clone(),
            nullary_file_index: self.nullary_file_index,
            unary_file_index: self.unary_file_index,
        }
    }
}

/// A mode's cursor, as a commit saves it.
#[derive(Debug)]
pub enum Cursor {
    Depth(Progress),
    Length(LengthProgress),
}

/// The frontier a commit appends its batches to: a depth cursor names the
/// depth it explores (the next one once its pairs have started), a length
/// cursor the stratum in progress (the one just finished when the cursor has
/// moved on to the start of the next).
pub open spec fn commit_target(cursor: Cursor) -> int {
    match cursor {
        Cursor::Depth(p) => p.depth + if p.exploration_phase@ == phase_ready() {
            0int
        } else {
            1int
        },
        Cursor::Length(p) => if p.item == 0 && p.length > 1 {
            p.length - 1
        } else {
            p.length as int
        },
    }
}

/// Whether a cursor can be committed: the depth it targets fits in a `u64`.
pub open spec fn committable(cursor: Cursor) -> bool {
    commit_target(cursor) <= u64::MAX
}

/// Whether a cursor can be committed (see `committable`).
pub fn committable_cursor(cursor: &Cursor) -> (r: bool)
    ensures
        r == committable(*cursor),
{
    match cursor {
        Cursor::Depth(p) => p.depth < u64::MAX || text_equals(p.exploration_phase.as_str(), "exploring_ready"),
        Cursor::Length(_) => true,
    }
}

/// The numbers the manifest file records.
#[derive(Debug)]
pub struct Manifest {
    pub exhaustive_through_length: u64,
    pub step_limited_forms: usize,
    pub evaluations_entries: usize,
    pub evaluations_base_bytes: u64,
    pub evaluations_recent_bytes: u64,
    pub unaries_entries: usize,
    pub unaries_base_bytes: u64,
    pub unaries_recent_bytes: u64,
}

/// The manifest's numbers describe the stores: the entries of both layers
/// (counted as `len` counts them) and the sizes of the layers.
pub open spec fn describes_stores(m: Manifest, e: MapStore, u: SetStore) -> bool {
    &&& m.evaluations_base_bytes == e.base_size()
    &&& m.evaluations_recent_bytes == e.recent_size()
    &&& m.unaries_base_bytes == u.base_size()
    &&& m.unaries_recent_bytes == u.recent_size()
    &&& e.base_entries().len() + e.recent_entries().len() <= usize::MAX ==> m.evaluations_entries
        == e.base_entries().len() + e.recent_entries().len()
    &&& u.base_keys().len() + u.recent_keys().len() <= usize::MAX ==> m.unaries_entries == u.base_keys().len()
        + u.recent_keys().len()
}

/// Everything a commit writes, in the order to write it: the frontier
/// appends, the seen sets and stores, the index of shortest forms, the
/// step-limited forms, the manifest, and last the cursor that marks the batch
/// as spent.
pub struct CommitPlan {
    /// "chains" (depth mode) or "strata" (length mode).
    pub frontier_base: String,
    pub frontier_index: u64,
    pub frontier_nullaries: BTreeSet<String>,
    pub frontier_unaries: BTreeSet<String>,
    pub seen_nullaries_recent: Option<Vec<u8>>,
    pub seen_unaries_recent: Option<Vec<u8>>,
    pub evaluations_recent: Option<Vec<u8>>,
    pub unaries_recent: Option<Vec<u8>>,
    /// A compacted base layer; the recent layer's file is then removed.
    pub evaluations_base: Option<Vec<u8>>,
    pub unaries_base: Option<Vec<u8>>,
    pub min_index: Option<String>,
    pub step_limited: Option<String>,
    pub manifest: Manifest,
    pub cursor: Cursor,
}

/// The lines of a file listing forms, one per line.
pub open spec fn form_lines(v: Seq<Seq<char>>) -> Seq<char>
    decreases v.len(),
{
    if v.len() == 0 {
        Seq::empty()
    } else {
        form_lines(v.drop_last()) + v.last() + seq!['\n']
    }
}

/// The text of the file of step-limited forms: each form on a line of its
/// own, in increasing order.
pub fn render_forms(forms: &BTreeSet<String>) -> (r: String)
    ensures
        exists|v: Seq<Seq<char>>| lists_texts(v, texts(forms)) && r@ == form_lines(v),
{
    let items = texts_in_order(forms);
    let ghost v = views_of_strings(items@);
    let mut out = String::new();
    let mut i: usize = 0;
    while i < items.len()
        invariant
            v == views_of_strings(items@),
            0 <= i <= items.len(),
            out@ == form_lines(v.take(i as int)),
        decreases items.len() - i,
    {
        out.append(items[i].as_str());
        out.append("\n");
        proof {
            reveal_strlit("\n");
            assert(v.take(i + 1).drop_last() =~= v.take(i as int));
        }
        i = i + 1;
    }
    assert(v.take(items.len() as int) =~= v);
    out
}

/// A form the file of step-limited forms holds on a line of its own and
/// reads back unchanged: not blank, no line break, no white space around it.
pub open spec fn holds_as_a_line(f: Seq<char>) -> bool {
    &&& f.len() > 0
    &&& !f.contains('\n')
    &&& f.last() != '\r'
    &&& trim_spec(f) == f
}

#[verifier::rlimit(30)]
proof fn lemma_pieces_of_form_lines(v: Seq<Seq<char>>)
    requires
        forall|i: int| 0 <= i < v.len() ==> holds_as_a_line(#[trigger] v[i]),
    ensures
        newline_pieces(form_lines(v)) == v.push(Seq::empty()),
    decreases v.len(),
{
    if v.len() == 0 {
        assert(form_lines(v) =~= Seq::<char>::empty());
        assert(v.push(Seq::empty()) =~= seq![Seq::<char>::empty()]);
    } else {
        let rest = v.drop_last();
        lemma_pieces_of_form_lines(rest);
        let x = form_lines(rest);
        let y = v.last();
        assert(holds_as_a_line(v[v.len() - 1]));
        lemma_pieces_extend(x, y);
        assert(form_lines(v) =~= (x + y).push('\n'));
        assert((x + y).push('\n').drop_last() =~= x + y);
        let p = newline_pieces(x);
        assert(p.last() + y =~= y);
        assert(p.update(p.len() - 1, y) =~= v);
    }
}

/// Reading the file of step-limited forms back gives the forms that were
/// written (see `render_forms`), when each holds on a line.
pub proof fn law_step_limited_file_round_trip(v: Seq<Seq<char>>, forms: Set<Seq<char>>)
    requires
        lists_texts(v, forms),
        forall|f: Seq<char>| #[trigger] forms.contains(f) ==> holds_as_a_line(f),
    ensures
        forall|t: Seq<char>| nonblank_trimmed_lines(form_lines(v)).contains(t) <==> forms.contains(t),
{
    assert forall|i: int| 0 <= i < v.len() implies holds_as_a_line(#[trigger] v[i]) by {
        assert(forms.contains(v[i]));
    }
    lemma_pieces_of_form_lines(v);
    let text = form_lines(v);
    if v.len() > 0 {
        assert(text =~= form_lines(v.drop_last()) + v.last() + seq!['\n']);
        assert(text.last() == '\n');
        assert(v.push(Seq::empty()).drop_last() =~= v);
        assert(v.map_values(|l: Seq<char>| without_cr(l)) =~= v);
        assert(lines_spec(text) =~= v);
    } else {
        assert(text =~= Seq::<char>::empty());
        assert(lines_spec(text) =~= v);
    }
    assert(v.map_values(|l: Seq<char>| trim_spec(l)) =~= v);
    let pred = |l: Seq<char>| l.len() > 0;
    v.filter_lemma(pred);
    assert forall|t: Seq<char>| nonblank_trimmed_lines(text).contains(t) <==> forms.contains(t) by {
        if nonblank_trimmed_lines(text).contains(t) {
            v.lemma_filter_contains_rev(pred, t);
            let i = choose|i: int| 0 <= i < v.len() && v[i] == t;
        }
        if forms.contains(t) {
            let i = choose|i: int| 0 <= i < v.len() && #[trigger] v[i] == t;
            assert(pred(v[i]));
        }
    }
}

/// The watermark the manifest records at a commit of this cursor.
pub open spec fn manifest_watermark(held: u64, cursor: Cursor) -> u64 {
    match cursor {
        Cursor::Length(p) => if p.complete_through_length > held {
            p.complete_through_length
        } else {
            held
        },
        Cursor::Depth(_) => held,
    }
}

impl Engine {
    /// Whether the engine's stores are intact, so that their reads can be
    /// relied on (see `MapStore::intact`).
    pub closed spec fn stores_intact(&self) -> bool {
        &&& self.evaluations.intact()
        &&& self.unaries.intact()
        &&& self.depth_seen_nullaries.intact()
        &&& self.depth_seen_unaries.intact()
    }

    pub closed spec fn value_store(&self) -> MapStore {
        self.evaluations
    }

    pub closed spec fn unary_store(&self) -> SetStore {
        self.unaries
    }

    pub closed spec fn seen_nullary_store(&self) -> SetStore {
        self.depth_seen_nullaries
    }

    pub closed spec fn seen_unary_store(&self) -> SetStore {
        self.depth_seen_unaries
    }

    pub closed spec fn index_dirty(&self) -> bool {
        self.min_index.is_dirty()
    }

    /// Commits the batch under `cursor`: the stores take in the pending
    /// values and unaries (and, in depth mode, the seen sets the pending seen
    /// forms), layers that outgrew the threshold are compacted, the cursor
    /// becomes the mode's cursor, and the batches start empty again. The plan
    /// says what to write, in crash-safe order.
    pub fn commit(&mut self, cursor: Cursor) -> (plan: CommitPlan)
        requires
            old(self).stores_intact(),
            committable(cursor),
        ensures
            final(self).stores_intact(),
            plan.frontier_base@ == (if cursor is Depth {
                "chains"@
            } else {
                "strata"@
            }),
            plan.frontier_index == commit_target(cursor),
            texts(&plan.frontier_nullaries) == old(self).model().pending_frontier_nullaries,
            texts(&plan.frontier_unaries) == old(self).model().pending_frontier_unaries,
            cursor is Depth ==> final(self).model().seen_nullaries == old(self).model().seen_nullaries
                + bytes_of_texts(old(self).model().pending_seen_nullaries),
            cursor is Depth ==> final(self).model().seen_unaries == old(self).model().seen_unaries
                + bytes_of_texts(old(self).model().pending_seen_unaries),
            cursor is Length ==> final(self).seen_nullary_store() == old(self).seen_nullary_store()
                && final(self).seen_unary_store() == old(self).seen_unary_store(),
            cursor is Length ==> plan.seen_nullaries_recent is None && plan.seen_unaries_recent is None,
            plan.seen_nullaries_recent matches Some(b) ==> set_layer_decoded(b@) == Some(final(self).seen_nullary_store().recent_keys()),
            plan.seen_unaries_recent matches Some(b) ==> set_layer_decoded(b@) == Some(final(self).seen_unary_store().recent_keys()),
            final(self).model().known == old(self).value_store().committed_contents(
                old(self).model().pending_evaluations,
            ),
            final(self).model().unaries == old(self).model().unaries + bytes_of_texts(
                old(self).model().pending_unaries,
            ),
            plan.evaluations_recent is Some <==> !old(self).model().pending_evaluations.is_empty(),
            plan.unaries_recent is Some <==> !old(self).model().pending_unaries.is_empty(),
            plan.evaluations_base matches Some(b) ==> map_layer_decoded(b@) == Some(final(self).model().known)
                && !final(self).value_store().has_recent(),
            plan.evaluations_base is None ==> (plan.evaluations_recent matches Some(b)
                ==> map_layer_decoded(b@) == Some(final(self).value_store().recent_entries())),
            plan.unaries_base matches Some(b) ==> set_layer_decoded(b@) == Some(final(self).model().unaries)
                && !final(self).unary_store().has_recent(),
            plan.unaries_base is None ==> (plan.unaries_recent matches Some(b) ==> set_layer_decoded(
                b@,
            ) == Some(final(self).unary_store().recent_keys())),
            final(self).model().stats == (Stats {
                commits: bump(old(self).model().stats.commits),
                compactions: if plan.evaluations_base is Some || plan.unaries_base is Some {
                    bump(old(self).model().stats.compactions)
                } else {
                    old(self).model().stats.compactions
                },
                ..old(self).model().stats
            }),
            old(self).index_dirty() ==> (plan.min_index matches Some(t) && t@ == tsv_of(
                old(self).model().min_index,
            )),
            !old(self).index_dirty() ==> plan.min_index is None,
            !final(self).index_dirty(),
            final(self).model().min_index == old(self).model().min_index,
            old(self).model().step_limited_dirty ==> (plan.step_limited matches Some(t) && exists|
                v: Seq<Seq<char>>,
            | lists_texts(v, old(self).model().step_limited) && t@ == form_lines(v)),
            !old(self).model().step_limited_dirty ==> plan.step_limited is None,
            !final(self).model().step_limited_dirty,
            plan.manifest.exhaustive_through_length == manifest_watermark(
                old(self).length_cursor().complete_through_length,
                cursor,
            ),
            plan.manifest.step_limited_forms == old(self).model().step_limited.len(),
            describes_stores(plan.manifest, final(self).value_store(), final(self).unary_store()),
            cursor matches Cursor::Depth(p) ==> same_progress(final(self).depth_cursor(), p)
                && final(self).length_cursor() == old(self).length_cursor(),
            cursor matches Cursor::Length(p) ==> final(self).length_cursor() == p
                && final(self).depth_cursor() == old(self).depth_cursor(),
            cursor matches Cursor::Depth(p) ==> (plan.cursor matches Cursor::Depth(q) && same_progress(q, p)),
            cursor matches Cursor::Length(p) ==> plan.cursor == Cursor::Length(p),
            final(self).model().pending_evaluations.is_empty(),
            final(self).model().pending_unaries.is_empty(),
            final(self).model().pending_frontier_nullaries.is_empty(),
            final(self).model().pending_frontier_unaries.is_empty(),
            final(self).model().pending_seen_nullaries.is_empty(),
            final(self).model().pending_seen_unaries.is_empty(),
            final(self).model().memo == old(self).model().memo,
            final(self).model().failed == old(self).model().failed,
            final(self).model().step_limited == old(self).model().step_limited,
            final(self).settings() == old(self).settings(),
            final(self).budget() == old(self).budget(),
            final(self).stratum_position() == old(self).stratum_position(),
            final(self).root_path() == old(self).root_path(),
    {
        let ready = match &cursor {
            Cursor::Depth(progress) => text_equals(progress.exploration_phase.as_str(), "exploring_ready"),
            Cursor::Length(_) => false,
        };
        proof {
            reveal_strlit("exploring_ready");
            reveal_strlit("chains");
            reveal_strlit("strata");
        }
        let (frontier_base, frontier_index) = match &cursor {
            Cursor::Depth(progress) => (
                "chains".to_string(),
                if ready {
                    progress.depth
                } else {
                    progress.depth + 1
                },
            ),
            Cursor::Length(progress) => (
                "strata".to_string(),
                if progress.item == 0 && progress.length > 1 {
                    progress.length - 1
                } else {
                    progress.length
                },
            ),
        };
        let mut frontier_nullaries = empty_texts();
        let mut frontier_unaries = empty_texts();
        std::mem::swap(&mut frontier_nullaries, &mut self.pending_frontier_nullaries);
        std::mem::swap(&mut frontier_unaries, &mut self.pending_frontier_unaries);
        let (seen_nullaries_recent, seen_unaries_recent) = match &cursor {
            Cursor::Depth(_) => (
                self.depth_seen_nullaries.commit(&self.pending_seen_nullaries),
                self.depth_seen_unaries.commit(&self.pending_seen_unaries),
            ),
            Cursor::Length(_) => (None, None),
        };
        let evaluations_recent = self.evaluations.commit(&self.pending_evaluations);
        let unaries_recent = self.unaries.commit(&self.pending_unaries);
        let evaluations_base = self.evaluations.maybe_compact(self.config.compact_bytes);
        let unaries_base = self.unaries.maybe_compact(self.config.compact_bytes);
        if evaluations_base.is_some() || unaries_base.is_some() {
            self.stats.compactions = bumped(self.stats.compactions);
        }
        let min_index = self.min_index.save_if_dirty();
        let step_limited = if self.step_limited_dirty {
            self.step_limited_dirty = false;
            Some(render_forms(&self.step_limited))
        } else {
            None
        };
        let held = self.length_progress.complete_through_length;
        let exhaustive_through_length = match &cursor {
            Cursor::Length(progress) => if progress.complete_through_length > held {
                progress.complete_through_length
            } else {
                held
            },
            Cursor::Depth(_) => held,
        };
        let manifest = Manifest {
            exhaustive_through_length,
            step_limited_forms: texts_len(&self.step_limited),
            evaluations_entries: self.evaluations.len(),
            evaluations_base_bytes: self.evaluations.base_bytes(),
            evaluations_recent_bytes: self.evaluations.recent_bytes(),
            unaries_entries: self.unaries.len(),
            unaries_base_bytes: self.unaries.base_bytes(),
            unaries_recent_bytes: self.unaries.recent_bytes(),
        };
        let saved = match cursor {
            Cursor::Depth(progress) => {
                self.depth_progress = progress.copy_of();
                Cursor::Depth(progress)
            },
            Cursor::Length(progress) => {
                self.length_progress = progress;
                Cursor::Length(progress)
            },
        };
        text_entries_clear(&mut self.pending_evaluations);
        texts_clear(&mut self.pending_unaries);
        texts_clear(&mut self.pending_seen_nullaries);
        texts_clear(&mut self.pending_seen_unaries);
        self.stats.commits = bumped(self.stats.commits);
        CommitPlan {
            frontier_base,
            frontier_index,
            frontier_nullaries,
            frontier_unaries,
            seen_nullaries_recent,
            seen_unaries_recent,
            evaluations_recent,
            unaries_recent,
            evaluations_base,
            unaries_base,
            min_index,
            step_limited,
            manifest,
            cursor: saved,
        }
    }
}

/// What the caller does after a step of a run.
#[derive(Debug)]
pub enum Action {
    /// Take the next step.
    Continue,
    /// Commit under the cursor (see `Engine::commit`), then take the next step.
    Commit(Cursor),
    /// Commit under the cursor; the run stops, its budget spent.
    Stop(Cursor),
    /// Commit under the cursor; the unit (stratum or depth) is complete.
    Finish(Cursor),
    /// The unit is complete with nothing to commit.
    Done,
}

/// Whether a commit is due for a model: enough pending keys, or enough time
/// since the last commit.
pub open spec fn due(m: EngineModel, config: EngineConfig, seconds_since_commit: u64) -> bool {
    m.pending_evaluations.len() + m.pending_unaries.len() >= config.batch_keys
        || seconds_since_commit >= config.batch_secs
}

/// The model after the stratum item `item` is processed from `e`.
pub open spec fn after_stratum_item(e: &Engine, item: (Seq<char>, bool)) -> EngineModel {
    if item.1 {
        e.model().after_stratum_nullary(item.0, result_and_memo(e.evaluation(item.0)))
    } else {
        e.model().after_stratum_unary(item.0)
    }
}

impl Engine {
    /// Whether the run has processed as many items as its budget allows.
    pub open spec fn budget_spent(&self) -> bool {
        match self.budget() {
            Some(b) => self.model().stats.items >= b,
            None => false,
        }
    }

    /// Bounds the items a run may process (or lifts the bound).
    pub fn set_items_budget(&mut self, budget: Option<u64>)
        ensures
            final(self).stores_intact() == old(self).stores_intact(),
            final(self).budget() == budget,
            final(self).model() == old(self).model(),
            final(self).settings() == old(self).settings(),
            final(self).depth_cursor() == old(self).depth_cursor(),
            final(self).length_cursor() == old(self).length_cursor(),
            final(self).stratum_position() == old(self).stratum_position(),
    {
        self.items_budget = budget;
    }

    /// Starts a stratum of length mode where the length cursor left off.
    pub fn begin_stratum(&mut self)
        ensures
            final(self).stores_intact() == old(self).stores_intact(),
            final(self).stratum_position() == old(self).length_cursor().item,
            final(self).model() == old(self).model(),
            final(self).settings() == old(self).settings(),
            final(self).depth_cursor() == old(self).depth_cursor(),
            final(self).length_cursor() == old(self).length_cursor(),
            final(self).budget() == old(self).budget(),
    {
        self.next_item = self.length_progress.item;
    }

    /// One step of length mode over the stratum in progress, whose shorter
    /// strata are `strata` and which holds `total` forms: past the last form
    /// the stratum is finished and the watermark moves up to it; when the
    /// budget is spent the run stops before the next form; otherwise the next
    /// form is processed, and a commit is asked for when one is due.
    pub fn stratum_step(&mut self, strata: &Strata, total: u64, seconds_since_commit: u64) -> (r: Action)
        requires
            old(self).stores_intact(),
            strata.all_ascii(),
            total == stratum_items(*strata, old(self).length_cursor().length as int).len(),
            old(self).length_cursor().length < u64::MAX,
        ensures
            final(self).stores_intact(),
            final(self).settings() == old(self).settings(),
            final(self).depth_cursor() == old(self).depth_cursor(),
            final(self).length_cursor() == old(self).length_cursor(),
            final(self).budget() == old(self).budget(),
            old(self).stratum_position() >= total ==> r == Action::Finish(Cursor::Length(LengthProgress {
                length: (old(self).length_cursor().length + 1) as u64,
                item: 0,
                complete_through_length: old(self).length_cursor().length,
            })) && final(self).model() == old(self).model() && final(self).stratum_position()
                == old(self).stratum_position(),
            old(self).stratum_position() < total && old(self).budget_spent() ==> r == Action::Stop(Cursor::Length(LengthProgress {
                length: old(self).length_cursor().length,
                item: old(self).stratum_position(),
                complete_through_length: old(self).length_cursor().complete_through_length,
            })) && final(self).model() == old(self).model() && final(self).stratum_position()
                == old(self).stratum_position(),
            old(self).stratum_position() < total && !old(self).budget_spent() ==> {
                &&& final(self).model() == after_stratum_item(
                    old(self),
                    stratum_items(*strata, old(self).length_cursor().length as int)[old(self).stratum_position() as int],
                )
                &&& final(self).stratum_position() == old(self).stratum_position() + 1
                &&& r == if due(final(self).model(), final(self).settings(), seconds_since_commit) {
                    Action::Commit(Cursor::Length(LengthProgress {
                        length: old(self).length_cursor().length,
                        item: final(self).stratum_position(),
                        complete_through_length: old(self).length_cursor().complete_through_length,
                    }))
                } else {
                    Action::Continue
                }
            },
    {
        let length = self.length_progress.length;
        let watermark = self.length_progress.complete_through_length;
        if self.next_item >= total {
            return Action::Finish(Cursor::Length(LengthProgress {
                length: length + 1,
                item: 0,
                complete_through_length: length,
            }));
        }
        if self.budget_exhausted() {
            return Action::Stop(Cursor::Length(LengthProgress {
                length,
                item: self.next_item,
                complete_through_length: watermark,
            }));
        }
        let (form, is_nullary) = stratum_item(strata, length, self.next_item);
        proof {
            crate::synthesis::lemma_stratum_items_ascii(*strata, length as int, self.next_item as int);
        }
        if is_nullary {
            self.process_stratum_nullary(form);
        } else {
            self.process_stratum_unary(form);
        }
        self.next_item = self.next_item + 1;
        if self.commit_due(seconds_since_commit) {
            Action::Commit(Cursor::Length(LengthProgress {
                length,
                item: self.next_item,
                complete_through_length: watermark,
            }))
        } else {
            Action::Continue
        }
    }
}

/// Whether a cursor holds the given values.
pub open spec fn progress_is(
    p: Progress,
    depth: u64,
    nullary_index: u64,
    unary_index: u64,
    phase: Seq<char>,
    nullary_file_index: u64,
    unary_file_index: u64,
) -> bool {
    &&& p.depth == depth
    &&& p.nullary_index == nullary_index
    &&& p.unary_index == unary_index
    &&& p.exploration_phase@ == phase
    &&& p.nullary_file_index == nullary_file_index
    &&& p.unary_file_index == unary_file_index
}

/// The next pair of phase one at or after position (`uf`, `ni`, `ui`): the
/// nullaries of this depth against the unaries of every depth up to it, by
/// unary depth, then nullary, then unary.
pub open spec fn settle_new(chains: Strata, depth: nat, uf: nat, ni: nat, ui: nat) -> Option<(nat, nat, nat)>
    decreases depth + 1 - uf, chains.n(depth as int).len() - ni,
{
    if uf > depth {
        None
    } else if ni >= chains.n(depth as int).len() {
        settle_new(chains, depth, uf + 1, 0, 0)
    } else if ui >= chains.u(uf as int).len() {
        settle_new(chains, depth, uf, ni + 1, 0)
    } else {
        Some((uf, ni, ui))
    }
}

/// The next pair of phase two at or after position (`nf`, `ui`, `ni`): the
/// unaries of this depth against the nullaries of every shallower depth, by
/// nullary depth, then unary, then nullary.
pub open spec fn settle_old(chains: Strata, depth: nat, nf: nat, ui: nat, ni: nat) -> Option<(nat, nat, nat)>
    decreases depth - nf, chains.u(depth as int).len() - ui,
{
    if nf >= depth {
        None
    } else if ui >= chains.u(depth as int).len() {
        settle_old(chains, depth, nf + 1, 0, 0)
    } else if ni >= chains.n(nf as int).len() {
        settle_old(chains, depth, nf, ui + 1, 0)
    } else {
        Some((nf, ui, ni))
    }
}

impl Engine {
    /// The position of the next pair of the depth being explored.
    pub closed spec fn depth_spot(&self) -> Progress {
        self.depth_position
    }

    /// Starts a depth of depth mode where the depth cursor left off; a depth
    /// that is ready starts its first phase.
    pub fn begin_depth(&mut self)
        ensures
            final(self).stores_intact() == old(self).stores_intact(),
            old(self).depth_cursor().exploration_phase@ == phase_ready() ==> progress_is(
                final(self).depth_spot(),
                old(self).depth_cursor().depth,
                0,
                0,
                phase_new_nullaries(),
                0,
                0,
            ),
            old(self).depth_cursor().exploration_phase@ != phase_ready() ==> same_progress(
                final(self).depth_spot(),
                old(self).depth_cursor(),
            ),
            final(self).model() == old(self).model(),
            final(self).settings() == old(self).settings(),
            final(self).depth_cursor() == old(self).depth_cursor(),
            final(self).length_cursor() == old(self).length_cursor(),
            final(self).budget() == old(self).budget(),
    {
        proof {
            reveal_strlit("exploring_ready");
        }
        if text_equals(self.depth_progress.exploration_phase.as_str(), "exploring_ready") {
            self.depth_position = Progress {
                depth: self.depth_progress.depth,
                nullary_index: 0,
                unary_index: 0,
                exploration_phase: phase_new_nullaries_text(),
                nullary_file_index: 0,
                unary_file_index: 0,
            };
        } else {
            self.depth_position = self.depth_progress.copy_of();
        }
    }

    /// The next pair of phase one (see `settle_new`).
    fn settle_new_pair(chains: &Strata, depth: u64, uf: u64, ni: u64, ui: u64) -> (r: Option<(u64, u64, u64)>)
        requires
            depth < u64::MAX,
        ensures
            r matches Some(t) ==> settle_new(*chains, depth as nat, uf as nat, ni as nat, ui as nat)
                == Some((t.0 as nat, t.1 as nat, t.2 as nat)),
            r is None ==> settle_new(*chains, depth as nat, uf as nat, ni as nat, ui as nat) is None,
    {
        let mut f = uf;
        let mut n = ni;
        let mut u = ui;
        loop
            invariant
                depth < u64::MAX,
                settle_new(*chains, depth as nat, uf as nat, ni as nat, ui as nat) == settle_new(
                    *chains,
                    depth as nat,
                    f as nat,
                    n as nat,
                    u as nat,
                ),
            decreases depth + 1 - f, chains.n(depth as int).len() - n,
        {
            if f > depth {
                return None;
            }
            if n >= chains.n_len(depth) as u64 {
                f = f + 1;
                n = 0;
                u = 0;
            } else if u >= chains.u_len(f) as u64 {
                n = n + 1;
                u = 0;
            } else {
                return Some((f, n, u));
            }
        }
    }

    /// The next pair of phase two (see `settle_old`).
    fn settle_old_pair(chains: &Strata, depth: u64, nf: u64, ui: u64, ni: u64) -> (r: Option<(u64, u64, u64)>)
        ensures
            r matches Some(t) ==> settle_old(*chains, depth as nat, nf as nat, ui as nat, ni as nat)
                == Some((t.0 as nat, t.1 as nat, t.2 as nat)),
            r is None ==> settle_old(*chains, depth as nat, nf as nat, ui as nat, ni as nat) is None,
    {
        let mut f = nf;
        let mut u = ui;
        let mut n = ni;
        loop
            invariant
                settle_old(*chains, depth as nat, nf as nat, ui as nat, ni as nat) == settle_old(
                    *chains,
                    depth as nat,
                    f as nat,
                    u as nat,
                    n as nat,
                ),
            decreases depth - f, chains.u(depth as int).len() - u,
        {
            if f >= depth {
                return None;
            }
            if u >= chains.u_len(depth) as u64 {
                f = f + 1;
                u = 0;
                n = 0;
            } else if n >= chains.n_len(f) as u64 {
                u = u + 1;
                n = 0;
            } else {
                return Some((f, u, n));
            }
        }
    }
}

/// The pair, as (unary, nullary), at a settled position of phase one.
pub open spec fn new_pair(chains: Strata, depth: nat, at: (nat, nat, nat)) -> (Seq<char>, Seq<char>) {
    (chains.u(at.0 as int)[at.2 as int], chains.n(depth as int)[at.1 as int])
}

/// The pair, as (unary, nullary), at a settled position of phase two.
pub open spec fn old_pair(chains: Strata, depth: nat, at: (nat, nat, nat)) -> (Seq<char>, Seq<char>) {
    (chains.u(depth as int)[at.1 as int], chains.n(at.0 as int)[at.2 as int])
}

/// The model after processing a pair from engine `e`.
pub open spec fn after_pair_of(e: &Engine, pair: (Seq<char>, Seq<char>)) -> EngineModel {
    e.model().after_pair(pair.0, pair.1, result_and_memo(e.evaluation(apply_unary(pair.0, pair.1))))
}

/// Whether an action commits (or asks nothing) as `due` says, with the depth
/// cursor `spot`.
pub open spec fn commit_or_continue(r: Action, is_due: bool, spot: Progress) -> bool {
    if is_due {
        r matches Action::Commit(Cursor::Depth(q)) && same_progress(q, spot)
    } else {
        r is Continue
    }
}

/// The names of the phases differ from one another.
pub proof fn lemma_phases_differ()
    ensures
        phase_ready() != phase_new_nullaries(),
        phase_ready() != phase_old_nullaries(),
        phase_new_nullaries() != phase_old_nullaries(),
{
    reveal_strlit("exploring_ready");
    reveal_strlit("exploring_new_nullaries_all_unaries");
    reveal_strlit("exploring_old_nullaries_new_unaries");
    assert(phase_ready().len() != phase_new_nullaries().len());
    assert(phase_ready().len() != phase_old_nullaries().len());
    assert(phase_new_nullaries()[10] != phase_old_nullaries()[10]);
}

/// A settled position of phase one names a pair that exists.
pub proof fn lemma_settle_new_bounds(chains: Strata, depth: nat, uf: nat, ni: nat, ui: nat)
    ensures
        settle_new(chains, depth, uf, ni, ui) matches Some(at) ==> at.0 <= depth && at.1 < chains.n(
            depth as int,
        ).len() && at.2 < chains.u(at.0 as int).len(),
    decreases depth + 1 - uf, chains.n(depth as int).len() - ni,
{
    if uf > depth {
    } else if ni >= chains.n(depth as int).len() {
        lemma_settle_new_bounds(chains, depth, uf + 1, 0, 0);
    } else if ui >= chains.u(uf as int).len() {
        lemma_settle_new_bounds(chains, depth, uf, ni + 1, 0);
    }
}

/// A settled position of phase two names a pair that exists.
pub proof fn lemma_settle_old_bounds(chains: Strata, depth: nat, nf: nat, ui: nat, ni: nat)
    ensures
        settle_old(chains, depth, nf, ui, ni) matches Some(at) ==> at.0 < depth && at.1 < chains.u(
            depth as int,
        ).len() && at.2 < chains.n(at.0 as int).len(),
    decreases depth - nf, chains.u(depth as int).len() - ui,
{
    if nf >= depth {
    } else if ui >= chains.u(depth as int).len() {
        lemma_settle_old_bounds(chains, depth, nf + 1, 0, 0);
    } else if ni >= chains.n(nf as int).len() {
        lemma_settle_old_bounds(chains, depth, nf, ui + 1, 0);
    }
}

/// Every unary of the stratum being synthesized joins the stratum, whether
/// or not the unary store or the pending unaries already held it (only the
/// count of new unaries tells them apart); afterwards the store or the pending
/// unaries hold it, and the stratum keeps what it held.
pub proof fn law_stratum_unaries_join_their_stratum(m: EngineModel, form: Seq<char>)
    ensures
        m.after_stratum_unary(form).pending_frontier_unaries.contains(form),
        m.after_stratum_unary(form).unaries.contains(utf8(form)) || m.after_stratum_unary(
            form,
        ).pending_unaries.contains(form),
        m.pending_frontier_unaries.subset_of(m.after_stratum_unary(form).pending_frontier_unaries),
        m.after_stratum_unary(form).pending_frontier_nullaries == m.pending_frontier_nullaries,
{
}

/// Every nullary of the stratum being synthesized that has a value joins
/// the stratum, whether the value was already known (a dedup hit) or was
/// just evaluated; one whose evaluation fails does not, and is recorded as
/// failed or step-limited.
pub proof fn law_stratum_nullaries_with_values_join_their_stratum(
    m: EngineModel,
    form: Seq<char>,
    outcome: (Result<u64, Failure>, Map<Seq<char>, u64>),
)
    ensures
        !m.given_up(form) && (m.value_known(form) || outcome.0 is Ok) ==> m.after_stratum_nullary(
            form,
            outcome,
        ).pending_frontier_nullaries.contains(form),
        !m.given_up(form) && !m.value_known(form) && outcome.0 is Err ==> m.after_stratum_nullary(
            form,
            outcome,
        ).given_up(form),
        m.pending_frontier_nullaries.subset_of(m.after_stratum_nullary(form, outcome).pending_frontier_nullaries),
{
}

/// Depth mode offers a unary it has not seen to the next frontier and marks
/// it seen, whether or not the unary store already held it; the store or the
/// pending unaries hold it afterwards.
pub proof fn law_depth_unaries_join_the_frontier(m: EngineModel, form: Seq<char>)
    ensures
        !m.seen_unaries.contains(utf8(form)) && !m.pending_seen_unaries.contains(form) ==> {
            &&& m.after_depth_unary(form).pending_frontier_unaries.contains(form)
            &&& m.after_depth_unary(form).pending_seen_unaries.contains(form)
            &&& (m.after_depth_unary(form).unaries.contains(utf8(form)) || m.after_depth_unary(
                form,
            ).pending_unaries.contains(form))
        },
        m.pending_frontier_unaries.subset_of(m.after_depth_unary(form).pending_frontier_unaries),
{
}

/// Retrying a step-limited form settles it unless it runs out of steps
/// again: a value takes it off the step-limited forms into the pending batch
/// with that value; any failure but a step limit takes it off the
/// step-limited forms into the failed ones; in both cases the list of
/// step-limited forms is to be written again. Another step limit leaves both
/// lists as they were. No other form changes list.
pub proof fn law_retry_settles_the_form(
    m: EngineModel,
    form: Seq<char>,
    outcome: (Result<u64, Failure>, Map<Seq<char>, u64>),
)
    ensures
        outcome.0 matches Ok(v) ==> !m.after_retry(form, outcome).step_limited.contains(form)
            && m.after_retry(form, outcome).pending_evaluations.contains_key(form)
            && m.after_retry(form, outcome).pending_evaluations[form] == v
            && m.after_retry(form, outcome).step_limited_dirty,
        (outcome.0 is Err && !(outcome.0 matches Err(Failure::StepLimit(_)))) ==> !m.after_retry(
            form,
            outcome,
        ).step_limited.contains(form) && m.after_retry(form, outcome).failed.contains(form) && m.after_retry(
            form,
            outcome,
        ).step_limited_dirty,
        outcome.0 matches Err(Failure::StepLimit(_)) ==> m.after_retry(form, outcome).step_limited
            == m.step_limited && m.after_retry(form, outcome).failed == m.failed,
        forall|f: Seq<char>|
            f != form ==> (#[trigger] m.after_retry(form, outcome).step_limited.contains(f)
                <==> m.step_limited.contains(f)),
        forall|f: Seq<char>|
            f != form ==> (#[trigger] m.after_retry(form, outcome).failed.contains(f) <==> m.failed.contains(f)),
{
}

/// Depth mode places every application it does not give up on in the next
/// frontier the first time it produces it, whether its value was already
/// known (a dedup hit for the value store) or was just evaluated: afterwards
/// it is in the pending frontier and marked seen, unless depth mode had
/// already seen it.
pub proof fn law_depth_applications_join_the_frontier(
    m: EngineModel,
    unary: Seq<char>,
    nullary: Seq<char>,
    outcome: (Result<u64, Failure>, Map<Seq<char>, u64>),
)
    ensures
        ({
            let c = apply_unary(unary, nullary);
            let r = m.after_pair(unary, nullary, outcome);
            !m.given_up(c) && (m.value_known(c) || outcome.0 is Ok) ==> {
                ||| m.seen_nullaries.contains(utf8(c))
                ||| m.pending_seen_nullaries.contains(c)
                ||| r.pending_frontier_nullaries.contains(c) && r.pending_seen_nullaries.contains(c)
            }
        }),
        m.pending_frontier_nullaries.subset_of(m.after_pair(unary, nullary, outcome).pending_frontier_nullaries),
{
}

/// Position `a` comes strictly before position `b`, comparing the first
/// coordinate, then the second, then the third.
pub open spec fn lex_before(a: (nat, nat, nat), b: (nat, nat, nat)) -> bool {
    a.0 < b.0 || (a.0 == b.0 && (a.1 < b.1 || (a.1 == b.1 && a.2 < b.2)))
}

/// Position (`nf`, `ui`, `ni`) names a pair of phase two: a nullary of a
/// shallower depth `nf` against a unary of this depth.
pub open spec fn is_old_pair(chains: Strata, depth: nat, at: (nat, nat, nat)) -> bool {
    at.0 < depth && at.1 < chains.u(depth as int).len() && at.2 < chains.n(at.0 as int).len()
}

/// Position (`uf`, `ni`, `ui`) names a pair of phase one: a nullary of this
/// depth against a unary of a depth `uf` up to it.
pub open spec fn is_new_pair(chains: Strata, depth: nat, at: (nat, nat, nat)) -> bool {
    at.0 <= depth && at.1 < chains.n(depth as int).len() && at.2 < chains.u(at.0 as int).len()
}

/// Phase two skips no pair: from any position, the next position settled on
/// is a pair of phase two at or after it, and no pair of phase two lies
/// between the two; there is none at or after the position exactly when
/// nothing is settled on. So the traversal from (0, 0, 0), moving one past
/// each pair it processes, reaches every unary of this depth against every
/// nullary of every shallower depth.
pub proof fn law_phase_two_skips_no_pair(chains: Strata, depth: nat, nf: nat, ui: nat, ni: nat)
    ensures
        settle_old(chains, depth, nf, ui, ni) matches Some(at) ==> is_old_pair(chains, depth, at)
            && !lex_before(at, (nf, ui, ni)),
        forall|p: (nat, nat, nat)|
            #![trigger is_old_pair(chains, depth, p)]
            is_old_pair(chains, depth, p) && !lex_before(p, (nf, ui, ni)) ==> (settle_old(
                chains,
                depth,
                nf,
                ui,
                ni,
            ) matches Some(at) && !lex_before(p, at)),
    decreases depth - nf, chains.u(depth as int).len() - ui,
{
    lemma_settle_old_bounds(chains, depth, nf, ui, ni);
    if nf >= depth {
    } else if ui >= chains.u(depth as int).len() {
        law_phase_two_skips_no_pair(chains, depth, nf + 1, 0, 0);
        assert forall|p: (nat, nat, nat)|
            #![trigger is_old_pair(chains, depth, p)]
            is_old_pair(chains, depth, p) && !lex_before(p, (nf, ui, ni)) implies !lex_before(p, (nf + 1, 0, 0)) by {}
    } else if ni >= chains.n(nf as int).len() {
        law_phase_two_skips_no_pair(chains, depth, nf, ui + 1, 0);
        assert forall|p: (nat, nat, nat)|
            #![trigger is_old_pair(chains, depth, p)]
            is_old_pair(chains, depth, p) && !lex_before(p, (nf, ui, ni)) implies !lex_before(p, (nf, ui + 1, 0)) by {}
    }
}

/// Phase one skips no pair: from any position, the next position settled on
/// is a pair of phase one at or after it, and no pair of phase one lies
/// between the two; there is none at or after the position exactly when
/// nothing is settled on.
pub proof fn law_phase_one_skips_no_pair(chains: Strata, depth: nat, uf: nat, ni: nat, ui: nat)
    ensures
        settle_new(chains, depth, uf, ni, ui) matches Some(at) ==> is_new_pair(chains, depth, at)
            && !lex_before(at, (uf, ni, ui)),
        forall|p: (nat, nat, nat)|
            #![trigger is_new_pair(chains, depth, p)]
            is_new_pair(chains, depth, p) && !lex_before(p, (uf, ni, ui)) ==> (settle_new(
                chains,
                depth,
                uf,
                ni,
                ui,
            ) matches Some(at) && !lex_before(p, at)),
    decreases depth + 1 - uf, chains.n(depth as int).len() - ni,
{
    lemma_settle_new_bounds(chains, depth, uf, ni, ui);
    if uf > depth {
    } else if ni >= chains.n(depth as int).len() {
        law_phase_one_skips_no_pair(chains, depth, uf + 1, 0, 0);
        assert forall|p: (nat, nat, nat)|
            #![trigger is_new_pair(chains, depth, p)]
            is_new_pair(chains, depth, p) && !lex_before(p, (uf, ni, ui)) implies !lex_before(p, (uf + 1, 0, 0)) by {}
    } else if ui >= chains.u(uf as int).len() {
        law_phase_one_skips_no_pair(chains, depth, uf, ni + 1, 0);
        assert forall|p: (nat, nat, nat)|
            #![trigger is_new_pair(chains, depth, p)]
            is_new_pair(chains, depth, p) && !lex_before(p, (uf, ni, ui)) implies !lex_before(p, (uf, ni + 1, 0)) by {}
    }
}

impl Engine {
    /// One step of depth mode over the frontiers `chains` (by depth). In
    /// phase one the next pair of this depth's nullaries against the unaries
    /// of every depth up to it is processed; once they are exhausted phase
    /// two starts with a commit. In phase two the next pair of this depth's
    /// unaries against the nullaries of every shallower depth is processed;
    /// once they are exhausted the depth is finished and the next one is
    /// ready. When the budget is spent the run stops before the next pair.
    pub fn depth_step(&mut self, chains: &Strata, seconds_since_commit: u64) -> (r: Action)
        requires
            old(self).stores_intact(),
            chains.all_ascii(),
            old(self).depth_spot().depth < u64::MAX,
        ensures
            final(self).stores_intact(),
            final(self).settings() == old(self).settings(),
            final(self).depth_cursor() == old(self).depth_cursor(),
            final(self).length_cursor() == old(self).length_cursor(),
            final(self).budget() == old(self).budget(),
            ({
                let pos = old(self).depth_spot();
                let depth = pos.depth as nat;
                let st = settle_new(
                    *chains,
                    depth,
                    pos.unary_file_index as nat,
                    pos.nullary_index as nat,
                    pos.unary_index as nat,
                );
                pos.exploration_phase@ == phase_new_nullaries() ==> match st {
                    None => {
                        &&& final(self).model() == old(self).model()
                        &&& progress_is(final(self).depth_spot(), pos.depth, 0, 0, phase_old_nullaries(), 0, pos.depth)
                        &&& r matches Action::Commit(Cursor::Depth(q)) && same_progress(q, final(self).depth_spot())
                    },
                    Some(at) => if old(self).budget_spent() {
                        &&& final(self).model() == old(self).model()
                        &&& r matches Action::Stop(Cursor::Depth(q)) && progress_is(
                            q,
                            pos.depth,
                            at.1 as u64,
                            at.2 as u64,
                            phase_new_nullaries(),
                            pos.depth,
                            at.0 as u64,
                        )
                    } else {
                        &&& final(self).model() == after_pair_of(old(self), new_pair(*chains, depth, at))
                        &&& progress_is(
                            final(self).depth_spot(),
                            pos.depth,
                            at.1 as u64,
                            (at.2 + 1) as u64,
                            phase_new_nullaries(),
                            pos.depth,
                            at.0 as u64,
                        )
                        &&& commit_or_continue(
                            r,
                            due(final(self).model(), final(self).settings(), seconds_since_commit),
                            final(self).depth_spot(),
                        )
                    },
                }
            }),
            ({
                let pos = old(self).depth_spot();
                let depth = pos.depth as nat;
                let st = settle_old(
                    *chains,
                    depth,
                    pos.nullary_file_index as nat,
                    pos.unary_index as nat,
                    pos.nullary_index as nat,
                );
                pos.exploration_phase@ == phase_old_nullaries() ==> match st {
                    None => {
                        &&& final(self).model() == old(self).model()
                        &&& progress_is(final(self).depth_spot(), (pos.depth + 1) as u64, 0, 0, phase_ready(), 0, 0)
                        &&& r matches Action::Finish(Cursor::Depth(q)) && same_progress(q, final(self).depth_spot())
                    },
                    Some(at) => if old(self).budget_spent() {
                        &&& final(self).model() == old(self).model()
                        &&& r matches Action::Stop(Cursor::Depth(q)) && progress_is(
                            q,
                            pos.depth,
                            at.2 as u64,
                            at.1 as u64,
                            phase_old_nullaries(),
                            at.0 as u64,
                            pos.depth,
                        )
                    } else {
                        &&& final(self).model() == after_pair_of(old(self), old_pair(*chains, depth, at))
                        &&& progress_is(
                            final(self).depth_spot(),
                            pos.depth,
                            (at.2 + 1) as u64,
                            at.1 as u64,
                            phase_old_nullaries(),
                            at.0 as u64,
                            pos.depth,
                        )
                        &&& commit_or_continue(
                            r,
                            due(final(self).model(), final(self).settings(), seconds_since_commit),
                            final(self).depth_spot(),
                        )
                    },
                }
            }),
            old(self).depth_spot().exploration_phase@ != phase_new_nullaries()
                && old(self).depth_spot().exploration_phase@ != phase_old_nullaries() ==> r is Done
                && final(self).model() == old(self).model(),
    {
        let depth = self.depth_position.depth;
        proof {
            reveal_strlit("exploring_new_nullaries_all_unaries");
            reveal_strlit("exploring_old_nullaries_new_unaries");
            lemma_phases_differ();
            let pos = self.depth_position;
            lemma_settle_new_bounds(
                *chains,
                depth as nat,
                pos.unary_file_index as nat,
                pos.nullary_index as nat,
                pos.unary_index as nat,
            );
            lemma_settle_old_bounds(
                *chains,
                depth as nat,
                pos.nullary_file_index as nat,
                pos.unary_index as nat,
                pos.nullary_index as nat,
            );
        }
        if text_equals(self.depth_position.exploration_phase.as_str(), "exploring_new_nullaries_all_unaries") {
            let settled = Self::settle_new_pair(
                chains,
                depth,
                self.depth_position.unary_file_index,
                self.depth_position.nullary_index,
                self.depth_position.unary_index,
            );
            match settled {
                None => {
                    self.depth_position = Progress {
                        depth,
                        nullary_index: 0,
                        unary_index: 0,
                        exploration_phase: phase_old_nullaries_text(),
                        nullary_file_index: 0,
                        unary_file_index: depth,
                    };
                    return Action::Commit(Cursor::Depth(self.depth_position.copy_of()));
                },
                Some((uf, ni, ui)) => {
                    if self.budget_exhausted() {
                        return Action::Stop(Cursor::Depth(Progress {
                            depth,
                            nullary_index: ni,
                            unary_index: ui,
                            exploration_phase: phase_new_nullaries_text(),
                            nullary_file_index: depth,
                            unary_file_index: uf,
                        }));
                    }
                    assert(ui < chains.u(uf as int).len() && ni < chains.n(depth as int).len());
                    let unary_count = chains.u_len(uf);
                    let nullary_count = chains.n_len(depth);
                    assert(ui < unary_count && ni < nullary_count);
                    let unary = chains.u_at(uf, ui as usize);
                    let nullary = chains.n_at(depth, ni as usize);
                    self.process_pair(unary, nullary);
                    self.depth_position = Progress {
                        depth,
                        nullary_index: ni,
                        unary_index: ui + 1,
                        exploration_phase: phase_new_nullaries_text(),
                        nullary_file_index: depth,
                        unary_file_index: uf,
                    };
                    if self.commit_due(seconds_since_commit) {
                        return Action::Commit(Cursor::Depth(self.depth_position.copy_of()));
                    }
                    return Action::Continue;
                },
            }
        }
        if text_equals(self.depth_position.exploration_phase.as_str(), "exploring_old_nullaries_new_unaries") {
            let settled = Self::settle_old_pair(
                chains,
                depth,
                self.depth_position.nullary_file_index,
                self.depth_position.unary_index,
                self.depth_position.nullary_index,
            );
            match settled {
                None => {
                    self.depth_position = Progress::start_of_depth(depth + 1);
                    return Action::Finish(Cursor::Depth(self.depth_position.copy_of()));
                },
                Some((nf, ui, ni)) => {
                    if self.budget_exhausted() {
                        return Action::Stop(Cursor::Depth(Progress {
                            depth,
                            nullary_index: ni,
                            unary_index: ui,
                            exploration_phase: phase_old_nullaries_text(),
                            nullary_file_index: nf,
                            unary_file_index: depth,
                        }));
                    }
                    assert(ui < chains.u(depth as int).len() && ni < chains.n(nf as int).len());
                    let nullary_count = chains.n_len(nf);
                    let unary_count = chains.u_len(depth);
                    assert(ui < unary_count && ni < nullary_count);
                    let unary = chains.u_at(depth, ui as usize);
                    let nullary = chains.n_at(nf, ni as usize);
                    self.process_pair(unary, nullary);
                    self.depth_position = Progress {
                        depth,
                        nullary_index: ni + 1,
                        unary_index: ui,
                        exploration_phase: phase_old_nullaries_text(),
                        nullary_file_index: nf,
                        unary_file_index: depth,
                    };
                    if self.commit_due(seconds_since_commit) {
                        return Action::Commit(Cursor::Depth(self.depth_position.copy_of()));
                    }
                    return Action::Continue;
                },
            }
        }
        Action::Done
    }
}

/// What retrying one step-limited form came to.
#[derive(PartialEq, Eq, Structural)]
pub enum RetryOutcome {
    Resolved,
    StillLimited,
    Overflowed,
}

impl EngineModel {
    /// The model after retrying a step-limited form, given the outcome of
    /// evaluating it: a value joins the index and the pending batch and the
    /// form is no longer step-limited; another step-limit failure changes
    /// nothing but the memo; any other failure makes the form failed for good.
    pub open spec fn after_retry(
        self,
        form: Seq<char>,
        outcome: (Result<u64, Failure>, Map<Seq<char>, u64>),
    ) -> EngineModel {
        let counted = EngineModel {
            memo: outcome.1,
            stats: Stats { evaluations: bump(self.stats.evaluations), ..self.stats },
            ..self
        };
        match outcome.0 {
            Ok(v) => EngineModel {
                min_index: offered(counted.min_index, v, form),
                pending_evaluations: counted.pending_evaluations.insert(form, v),
                step_limited: counted.step_limited.remove(form),
                step_limited_dirty: true,
                ..counted
            },
            Err(Failure::StepLimit(_)) => counted,
            Err(_) => EngineModel {
                step_limited: counted.step_limited.remove(form),
                failed: counted.failed.insert(form),
                step_limited_dirty: true,
                ..counted
            },
        }
    }
}

/// A batch of pending values holding exactly `pending` (the engine's own
/// batch is one whenever it holds `pending`).
pub open spec fn batch_holding(pending: Map<Seq<char>, u64>) -> BTreeMap<String, u64> {
    choose|b: BTreeMap<String, u64>| text_entries(&b) == pending
}

/// What evaluating a nullary from a model gives, over the given store and
/// under the given step limit: `Engine::evaluation` in terms of values.
pub closed spec fn model_evaluation(store: MapStore, limit: u64, m: EngineModel, form: Seq<char>) -> (
    Result<u64, Failure>,
    Map<Seq<char>, u64>,
    u64,
) {
    nullary_spec(
        TieredLookup { store: &store, pending: &batch_holding(m.pending_evaluations) },
        Some(limit),
        m.memo,
        0,
        form,
    )
}

/// The running account of a retry: the model after it, the forms that
/// resolved, and how many were still step-limited or overflowed.
pub ghost struct RetryTally {
    pub model: EngineModel,
    pub resolved: Set<Seq<char>>,
    pub still_limited: nat,
    pub overflowed: nat,
}

/// Retrying the forms one after the other, in order, from model `m`.
pub open spec fn retried(store: MapStore, limit: u64, m: EngineModel, forms: Seq<Seq<char>>) -> RetryTally
    decreases forms.len(),
{
    if forms.len() == 0 {
        RetryTally { model: m, resolved: Set::empty(), still_limited: 0, overflowed: 0 }
    } else {
        let t = retried(store, limit, m, forms.drop_last());
        let f = forms.last();
        let o = model_evaluation(store, limit, t.model, f);
        RetryTally {
            model: t.model.after_retry(f, result_and_memo(o)),
            resolved: if o.0 is Ok {
                t.resolved.insert(f)
            } else {
                t.resolved
            },
            still_limited: if o.0 matches Err(Failure::StepLimit(_)) {
                t.still_limited + 1
            } else {
                t.still_limited
            },
            overflowed: if o.0 is Err && !(o.0 matches Err(Failure::StepLimit(_))) {
                t.overflowed + 1
            } else {
                t.overflowed
            },
        }
    }
}

impl Engine {
    /// An engine's evaluation depends only on its store, its step limit and
    /// its model.
    proof fn lemma_evaluation_of_model(&self, form: Seq<char>)
        ensures
            self.evaluation(form) == model_evaluation(self.value_store(), self.step_limit(), self.model(), form),
    {
        let pending = self.model().pending_evaluations;
        assert(text_entries(&self.pending_evaluations) == pending);
        let b = batch_holding(pending);
        assert(text_entries(&b) == pending);
        let l1 = TieredLookup { store: &self.evaluations, pending: &self.pending_evaluations };
        let l2 = TieredLookup { store: &self.evaluations, pending: &b };
        assert forall|k: Seq<char>| #[trigger] l1.spec_lookup(k) == l2.spec_lookup(k) by {}
        lemma_lookups_agree(l1, l2, Some(self.config.step_limit), text_map(&self.memo), 0, form);
    }
}

/// What retrying the step-limited forms writes: each resolved form joins the
/// stratum of its length (`resolved`, by increasing length), the value store
/// takes the resolved values, the index and the list of step-limited forms
/// are rewritten when they changed, and the length cursor rolls back when a
/// resolved form is at or below the exhaustiveness watermark.
pub struct RetryPlan {
    pub report: RetryReport,
    pub resolved: Vec<(u64, BTreeSet<String>)>,
    pub evaluations_recent: Option<Vec<u8>>,
    pub min_index: Option<String>,
    pub step_limited: Option<String>,
    pub rolled_back: Option<LengthProgress>,
    pub manifest: Manifest,
}

/// The length in bytes of a form, as `str::len` gives it and as a `u64`.
pub open spec fn byte_count(f: Seq<char>) -> u64 {
    (utf8(f).len() as usize) as u64
}

/// The forms of all groups together.
pub open spec fn grouped_forms(groups: Seq<(u64, BTreeSet<String>)>) -> Set<Seq<char>> {
    Set::new(|f: Seq<char>| exists|i: int| 0 <= i < groups.len() && texts(&groups[i].1).contains(f))
}

impl Engine {
    /// Evaluates a step-limited form again under the current step limit.
    fn retry_one(&mut self, form: String) -> (r: RetryOutcome)
        requires
            old(self).stores_intact(),
            all_ascii(form@),
        ensures
            final(self).stores_intact(),
            final(self).model() == old(self).model().after_retry(
                form@,
                result_and_memo(old(self).evaluation(form@)),
            ),
            same_frame(final(self), old(self)),
            final(self).value_store() == old(self).value_store(),
            old(self).index_dirty() ==> final(self).index_dirty(),
            !final(self).index_dirty() ==> final(self).model().min_index == old(self).model().min_index,
            r is Resolved <==> old(self).evaluation(form@).0 is Ok,
            r is StillLimited <==> old(self).evaluation(form@).0 matches Err(Failure::StepLimit(_)),
            r is Overflowed <==> (old(self).evaluation(form@).0 is Err && !(old(self).evaluation(
                form@,
            ).0 matches Err(Failure::StepLimit(_)))),
    {
        match self.evaluate(form.as_str()) {
            Ok(value) => {
                self.min_index.offer(value, form.as_str());
                text_entries_insert(&mut self.pending_evaluations, form.clone(), value);
                texts_remove(&mut self.step_limited, form.as_str());
                self.step_limited_dirty = true;
                RetryOutcome::Resolved
            },
            Err(EvalError::StepLimit(_)) => RetryOutcome::StillLimited,
            Err(_) => {
                texts_remove(&mut self.step_limited, form.as_str());
                texts_insert(&mut self.failed, form);
                self.step_limited_dirty = true;
                RetryOutcome::Overflowed
            },
        }
    }
}

/// A listing of distinct texts has as many entries as the set it lists.
proof fn lemma_listing_count(v: Seq<Seq<char>>, s: Set<Seq<char>>)
    requires
        lists_texts(v, s),
    ensures
        v.len() == s.len(),
        s.finite(),
{
    assert(v.no_duplicates()) by {
        assert forall|i: int, j: int| 0 <= i < v.len() && 0 <= j < v.len() && i != j implies v[i]
            != v[j] by {
            if i < j {
                crate::text::lemma_bytes_lt_asymmetric(utf8(v[i]), utf8(v[j]));
            } else {
                crate::text::lemma_bytes_lt_asymmetric(utf8(v[j]), utf8(v[i]));
            }
        }
    }
    assert(v.to_set() =~= s) by {
        assert forall|t: Seq<char>| s.contains(t) implies v.to_set().contains(t) by {
            let i = choose|i: int| 0 <= i < v.len() && #[trigger] v[i] == t;
            assert(v.contains(t));
        }
    }
    v.unique_seq_to_set();
}

impl Engine {
    /// Retries every step-limited form, in increasing order, under the
    /// current step limit, then commits what resolved. Resolved forms join the
    /// stratum of their length; if one is at or below the exhaustiveness
    /// watermark, the length cursor rolls back to just after the smallest such
    /// length, so that the sweep regenerates the superterms it skipped while
    /// the form was missing.
    pub fn retry_step_limited(&mut self) -> (plan: RetryPlan)
        requires
            old(self).stores_intact(),
            forall|f: Seq<char>| old(self).model().step_limited.contains(f) ==> all_ascii(f),
        ensures
            final(self).stores_intact(),
            plan.report.resolved + plan.report.still_limited + plan.report.overflowed == old(
                self,
            ).model().step_limited.len(),
            forall|a: int, b: int|
                0 <= a < b < plan.resolved@.len() ==> plan.resolved@[a].0 < plan.resolved@[b].0,
            forall|a: int| 0 <= a < plan.resolved@.len() ==> !(#[trigger] texts(&plan.resolved@[a].1)).is_empty(),
            forall|a: int, f: Seq<char>|
                0 <= a < plan.resolved@.len() && texts(&plan.resolved@[a].1).contains(f) ==> byte_count(f)
                    == plan.resolved@[a].0 && old(self).model().step_limited.contains(f)
                    && !final(self).model().step_limited.contains(f),
            plan.report.resolved == grouped_forms(plan.resolved@).len(),
            final(self).model().step_limited.subset_of(old(self).model().step_limited),
            final(self).model().pending_evaluations.is_empty(),
            !final(self).model().step_limited_dirty,
            !final(self).index_dirty(),
            plan.resolved@.len() > 0 && old(self).length_cursor().complete_through_length
                >= plan.resolved@[0].0 && plan.resolved@[0].0 < u64::MAX ==> plan.rolled_back == Some(
                LengthProgress {
                    length: (plan.resolved@[0].0 + 1) as u64,
                    item: 0,
                    complete_through_length: plan.resolved@[0].0,
                },
            ) && final(self).length_cursor() == plan.rolled_back->0 && plan.report.rolled_back_to == Some(
                plan.resolved@[0].0,
            ),
            !(plan.resolved@.len() > 0 && old(self).length_cursor().complete_through_length
                >= plan.resolved@[0].0 && plan.resolved@[0].0 < u64::MAX) ==> plan.rolled_back is None
                && final(self).length_cursor() == old(self).length_cursor() && plan.report.rolled_back_to is None,
            plan.manifest.exhaustive_through_length == final(self).length_cursor().complete_through_length,
            plan.manifest.step_limited_forms == final(self).model().step_limited.len(),
            describes_stores(plan.manifest, final(self).value_store(), final(self).unary_store()),
            exists|w: Seq<Seq<char>>|
                #![trigger retried(old(self).value_store(), old(self).step_limit(), old(self).model(), w)]
                lists_texts(w, old(self).model().step_limited) && ({
                    let t = retried(old(self).value_store(), old(self).step_limit(), old(self).model(), w);
                    &&& final(self).model() == (EngineModel {
                        known: old(self).value_store().committed_contents(t.model.pending_evaluations),
                        pending_evaluations: Map::empty(),
                        step_limited_dirty: false,
                        ..t.model
                    })
                    &&& grouped_forms(plan.resolved@) == t.resolved
                    &&& plan.report.still_limited == t.still_limited
                    &&& plan.report.overflowed == t.overflowed
                    &&& (plan.evaluations_recent is Some <==> !t.model.pending_evaluations.is_empty())
                }),
            plan.evaluations_recent matches Some(b) ==> map_layer_decoded(b@) == Some(final(self).value_store().recent_entries()),
            plan.min_index matches Some(t) ==> t@ == tsv_of(final(self).model().min_index),
            plan.min_index is None ==> final(self).model().min_index == old(self).model().min_index,
            plan.step_limited matches Some(t) ==> exists|w: Seq<Seq<char>>|
                lists_texts(w, final(self).model().step_limited) && t@ == form_lines(w),
            plan.step_limited is None ==> final(self).model().step_limited == old(self).model().step_limited,
            final(self).settings() == old(self).settings(),
            final(self).depth_cursor() == old(self).depth_cursor(),
            final(self).budget() == old(self).budget(),
    {
        let forms = texts_in_order(&self.step_limited);
        let ghost v = views_of_strings(forms@);
        let ghost s0 = self.model().step_limited;
        assert(v.take(0) =~= Seq::<Seq<char>>::empty());
        proof {
            lemma_listing_count(v, s0);
        }
        let mut report = RetryReport::default();
        let mut groups: Vec<(u64, BTreeSet<String>)> = Vec::new();
        let ghost mut resolved: Set<Seq<char>> = Set::empty();
        let mut i: usize = 0;
        assert(grouped_forms(groups@) =~= resolved);
        while i < forms.len()
            invariant
                v == views_of_strings(forms@),
                lists_texts(v, s0),
                v.len() == s0.len(),
                forall|f: Seq<char>| s0.contains(f) ==> all_ascii(f),
                0 <= i <= forms.len(),
                report.resolved + report.still_limited + report.overflowed == i,
                report.rolled_back_to is None,
                resolved.finite(),
                report.resolved == resolved.len(),
                grouped_forms(groups@) == resolved,
                forall|f: Seq<char>| resolved.contains(f) ==> exists|t: int| 0 <= t < i && #[trigger] v[t] == f,
                forall|f: Seq<char>| #[trigger] resolved.contains(f) ==> s0.contains(f) && !self.model().step_limited.contains(f),
                self.model().step_limited.subset_of(s0),
                forall|t: int| i <= t < v.len() ==> #[trigger] self.model().step_limited.contains(v[t]),
                forall|a: int, b: int| 0 <= a < b < groups@.len() ==> groups@[a].0 < groups@[b].0,
                forall|a: int| 0 <= a < groups@.len() ==> !(#[trigger] texts(&groups@[a].1)).is_empty(),
                forall|a: int, f: Seq<char>|
                    0 <= a < groups@.len() && texts(&groups@[a].1).contains(f) ==> byte_count(f) == groups@[a].0,
                self.settings() == old(self).settings(),
                self.depth_cursor() == old(self).depth_cursor(),
                self.length_cursor() == old(self).length_cursor(),
                self.budget() == old(self).budget(),
                self.value_store() == old(self).value_store(),
                self.step_limit() == old(self).step_limit(),
                self.stores_intact(),
                self.model() == retried(old(self).value_store(), old(self).step_limit(), old(self).model(), v.take(i as int)).model,
                resolved == retried(old(self).value_store(), old(self).step_limit(), old(self).model(), v.take(i as int)).resolved,
                report.still_limited == retried(old(self).value_store(), old(self).step_limit(), old(self).model(), v.take(i as int)).still_limited,
                report.overflowed == retried(old(self).value_store(), old(self).step_limit(), old(self).model(), v.take(i as int)).overflowed,
                old(self).index_dirty() ==> self.index_dirty(),
                !self.index_dirty() ==> self.model().min_index == old(self).model().min_index,
                !self.model().step_limited_dirty ==> self.model().step_limited == old(self).model().step_limited,
            decreases forms.len() - i,
        {
            let form = forms[i].clone();
            proof {
                self.lemma_evaluation_of_model(form@);
                assert(v.take(i + 1).drop_last() =~= v.take(i as int));
            }
            let ghost o = self.evaluation(form@);
            assert(v[i as int] == form@);
            let length = form.as_str().len() as u64;
            assert(length == byte_count(form@));
            let ghost before = self.model().step_limited;
            let outcome = self.retry_one(form.clone());
            proof {
                assert forall|t: int| i < t < v.len() implies #[trigger] self.model().step_limited.contains(v[t]) by {
                    crate::text::lemma_bytes_lt_asymmetric(utf8(v[i as int]), utf8(v[t]));
                    assert(before.contains(v[t]));
                }
            }
            match outcome {
                RetryOutcome::Resolved => {
                    report.resolved = report.resolved + 1;
                    let mut p: usize = 0;
                    while p < groups.len() && groups[p].0 < length
                        invariant
                            0 <= p <= groups.len(),
                            forall|q: int| 0 <= q < p ==> #[trigger] groups@[q].0 < length,
                        decreases groups.len() - p,
                    {
                        p = p + 1;
                    }
                    let ghost old_groups = groups@;
                    let ghost fv = form@;
                    if p < groups.len() && groups[p].0 == length {
                        let mut group = groups.remove(p);
                        let ghost old_group = group;
                        crate::collections::texts_insert(&mut group.1, form);
                        groups.insert(p, group);
                        proof {
                            assert(groups@ =~= old_groups.update(p as int, group));
                            assert(texts(&groups@[p as int].1).contains(fv));
                            assert forall|a: int| 0 <= a < groups@.len() implies !(#[trigger] texts(&groups@[a].1)).is_empty() by {
                                if a == p {
                                    assert(texts(&groups@[a].1).contains(fv));
                                } else {
                                    assert(groups@[a] == old_groups[a]);
                                    assert(!texts(&old_groups[a].1).is_empty());
                                }
                            }
                            assert forall|f: Seq<char>| grouped_forms(groups@).contains(f) <==> grouped_forms(
                                old_groups,
                            ).insert(fv).contains(f) by {
                                if grouped_forms(groups@).contains(f) {
                                    let a = choose|a: int| 0 <= a < groups@.len() && texts(&groups@[a].1).contains(f);
                                    if a != p && f != fv {
                                        assert(old_groups[a] == groups@[a]);
                                    }
                                    if a == p && f != fv {
                                        assert(texts(&old_group.1).contains(f));
                                        assert(old_groups[p as int] == old_group);
                                    }
                                }
                                if grouped_forms(old_groups).contains(f) {
                                    let a = choose|a: int| 0 <= a < old_groups.len() && texts(&old_groups[a].1).contains(f);
                                    if a != p {
                                        assert(groups@[a] == old_groups[a]);
                                    } else {
                                        assert(texts(&groups@[p as int].1).contains(f));
                                    }
                                }
                                if f == fv {
                                    assert(texts(&groups@[p as int].1).contains(f));
                                }
                            }
                            assert(grouped_forms(groups@) =~= grouped_forms(old_groups).insert(fv));
                        }
                    } else {
                        let mut fresh = empty_texts();
                        crate::collections::texts_insert(&mut fresh, form);
                        groups.insert(p, (length, fresh));
                        proof {
                            assert forall|a: int| 0 <= a < groups@.len() implies !(#[trigger] texts(&groups@[a].1)).is_empty() by {
                                if a == p {
                                    assert(texts(&groups@[a].1).contains(fv));
                                } else if a < p {
                                    assert(groups@[a] == old_groups[a]);
                                    assert(!texts(&old_groups[a].1).is_empty());
                                } else {
                                    assert(groups@[a] == old_groups[a - 1]);
                                    assert(!texts(&old_groups[a - 1].1).is_empty());
                                }
                            }
                            assert forall|f: Seq<char>| grouped_forms(groups@).contains(f) <==> grouped_forms(
                                old_groups,
                            ).insert(fv).contains(f) by {
                                if grouped_forms(groups@).contains(f) {
                                    let a = choose|a: int| 0 <= a < groups@.len() && texts(&groups@[a].1).contains(f);
                                    if a < p {
                                        assert(old_groups[a] == groups@[a]);
                                    } else if a > p {
                                        assert(old_groups[a - 1] == groups@[a]);
                                    }
                                }
                                if grouped_forms(old_groups).contains(f) {
                                    let a = choose|a: int| 0 <= a < old_groups.len() && texts(&old_groups[a].1).contains(f);
                                    if a < p {
                                        assert(groups@[a] == old_groups[a]);
                                    } else {
                                        assert(groups@[a + 1] == old_groups[a]);
                                    }
                                }
                                if f == fv {
                                    assert(texts(&groups@[p as int].1).contains(f));
                                }
                            }
                            assert(grouped_forms(groups@) =~= grouped_forms(old_groups).insert(fv));
                        }
                    }
                    proof {
                        assert(!resolved.contains(v[i as int])) by {
                            if resolved.contains(v[i as int]) {
                                let t = choose|t: int| 0 <= t < i && #[trigger] v[t] == v[i as int];
                                crate::text::lemma_bytes_lt_asymmetric(utf8(v[t]), utf8(v[i as int]));
                            }
                        }
                        resolved = resolved.insert(v[i as int]);
                    }
                },
                RetryOutcome::StillLimited => {
                    report.still_limited = report.still_limited + 1;
                },
                RetryOutcome::Overflowed => {
                    report.overflowed = report.overflowed + 1;
                },
            }
            i = i + 1;
        }
        proof {
            assert forall|a: int, f: Seq<char>|
                0 <= a < groups@.len() && texts(&groups@[a].1).contains(f) implies resolved.contains(f) by {
                assert(grouped_forms(groups@).contains(f));
            }
            assert(v.take(forms.len() as int) =~= v);
        }
        let ghost tally = retried(old(self).value_store(), old(self).step_limit(), old(self).model(), v);
        let ghost before_commit = self.model();
        let evaluations_recent = self.evaluations.commit(&self.pending_evaluations);
        text_entries_clear(&mut self.pending_evaluations);
        let min_index = self.min_index.save_if_dirty();
        let step_limited = if self.step_limited_dirty {
            self.step_limited_dirty = false;
            Some(render_forms(&self.step_limited))
        } else {
            None
        };
        let mut rolled_back: Option<LengthProgress> = None;
        if groups.len() > 0 {
            let smallest = groups[0].0;
            if self.length_progress.complete_through_length >= smallest && smallest < u64::MAX {
                let rolled = LengthProgress { length: smallest + 1, item: 0, complete_through_length: smallest };
                self.length_progress = rolled;
                rolled_back = Some(rolled);
                report.rolled_back_to = Some(smallest);
            }
        }
        let manifest = Manifest {
            exhaustive_through_length: self.length_progress.complete_through_length,
            step_limited_forms: texts_len(&self.step_limited),
            evaluations_entries: self.evaluations.len(),
            evaluations_base_bytes: self.evaluations.base_bytes(),
            evaluations_recent_bytes: self.evaluations.recent_bytes(),
            unaries_entries: self.unaries.len(),
            unaries_base_bytes: self.unaries.base_bytes(),
            unaries_recent_bytes: self.unaries.recent_bytes(),
        };
        proof {
            assert(before_commit == tally.model);
            assert(self.model().known == old(self).value_store().committed_contents(tally.model.pending_evaluations));
            assert(self.model().pending_evaluations == Map::<Seq<char>, u64>::empty());
            assert(self.model() == (EngineModel {
                known: old(self).value_store().committed_contents(tally.model.pending_evaluations),
                pending_evaluations: Map::empty(),
                step_limited_dirty: false,
                ..tally.model
            }));
            assert(lists_texts(v, old(self).model().step_limited));
        }
        RetryPlan { report, resolved: groups, evaluations_recent, min_index, step_limited, rolled_back, manifest }
    }
}

/// No work is repeated: a nullary whose value is known (by either mode), or
/// that was given up on, is not evaluated again by the sweep or by depth
/// mode; the memo and the pending values stay as they were, the index at
/// most takes a known form with its known value, and of the counters only
/// the item and dedup counters move.
pub proof fn law_no_repeated_work(
    m: EngineModel,
    form: Seq<char>,
    unary: Seq<char>,
    nullary: Seq<char>,
    outcome: (Result<u64, Failure>, Map<Seq<char>, u64>),
)
    ensures
        (m.given_up(form) || m.value_known(form)) ==> {
            let after = m.after_stratum_nullary(form, outcome);
            &&& after.stats.evaluations == m.stats.evaluations
            &&& after.stats.dedup_hits == bump(m.stats.dedup_hits)
            &&& after.memo == m.memo
            &&& after.pending_evaluations == m.pending_evaluations
            &&& after.min_index == (if m.given_up(form) {
                m.min_index
            } else {
                offered(m.min_index, m.known_value(form), form)
            })
            &&& after.failed == m.failed
            &&& after.step_limited == m.step_limited
        },
        (m.given_up(apply_unary(unary, nullary)) || m.value_known(apply_unary(unary, nullary)))
            ==> {
            let after = m.after_pair(unary, nullary, outcome);
            let c = apply_unary(unary, nullary);
            &&& after.stats.evaluations == m.stats.evaluations
            &&& after.memo == m.memo
            &&& after.pending_evaluations == m.pending_evaluations
            &&& after.min_index == (if m.given_up(c) {
                m.min_index
            } else {
                offered(m.min_index, m.known_value(c), c)
            })
            &&& after.failed == m.failed
            &&& after.step_limited == m.step_limited
        },
{
}

/// A form that fails to evaluate is pruned: it joins neither a frontier nor
/// the batch of values, and is remembered as given up on (as step-limited
/// when the step limit stopped it, as failed otherwise), so that nothing is
/// ever built on it and it is not evaluated again.
pub proof fn law_failed_forms_are_pruned(
    m: EngineModel,
    form: Seq<char>,
    unary: Seq<char>,
    nullary: Seq<char>,
    outcome: (Result<u64, Failure>, Map<Seq<char>, u64>),
)
    requires
        outcome.0 is Err,
    ensures
        !m.given_up(form) && !m.value_known(form) ==> {
            let after = m.after_stratum_nullary(form, outcome);
            &&& after.pending_frontier_nullaries == m.pending_frontier_nullaries
            &&& after.pending_evaluations == m.pending_evaluations
            &&& after.min_index == m.min_index
            &&& after.given_up(form)
            &&& (outcome.0 matches Err(e) && e is StepLimit) ==> after.step_limited.contains(form)
            &&& (outcome.0 matches Err(e) && !(e is StepLimit)) ==> after.failed.contains(form)
        },
        !m.given_up(apply_unary(unary, nullary)) && !m.value_known(apply_unary(unary, nullary)) ==> {
            let after = m.after_pair(unary, nullary, outcome);
            &&& after.pending_frontier_nullaries == m.pending_frontier_nullaries
            &&& after.pending_seen_nullaries == m.pending_seen_nullaries
            &&& after.pending_evaluations == m.pending_evaluations
            &&& after.min_index == m.min_index
            &&& after.given_up(apply_unary(unary, nullary))
        },
{
}

/// Index `b` improves on index `a`: every value `a` covers, `b` covers too,
/// by a form no longer than the one `a` has (ties broken lexicographically).
pub open spec fn improves_on(b: Map<u64, Seq<char>>, a: Map<u64, Seq<char>>) -> bool {
    forall|v: u64| #[trigger] a.contains_key(v) ==> b.contains_key(v) && shortlex_le(b[v], a[v])
}

proof fn lemma_offer_improves(m: Map<u64, Seq<char>>, value: u64, expression: Seq<char>)
    ensures
        improves_on(offered(m, value, expression), m),
{
    law_offer_keeps_shortest(m, value, expression);
    assert forall|v: u64| #[trigger] m.contains_key(v) implies offered(m, value, expression).contains_key(v)
        && shortlex_le(offered(m, value, expression)[v], m[v]) by {
        lemma_shortlex_total(m[v], m[v]);
    }
}

proof fn lemma_improves_on_itself(m: Map<u64, Seq<char>>)
    ensures
        improves_on(m, m),
{
    assert forall|v: u64| #[trigger] m.contains_key(v) implies m.contains_key(v) && shortlex_le(m[v], m[v]) by {
        lemma_shortlex_total(m[v], m[v]);
    }
}

/// The index only improves: a stratum item, a pair of depth mode or a retry
/// leaves every value the index covered covered, by a form no longer than
/// before; and a form that is evaluated to a value, or whose value is
/// already known, is indexed, the index then holding for that value a form
/// no longer than it. (So once a stratum is swept, each value its forms have
/// has an entry no longer than those forms, also after a crash lost an index
/// write.)
pub proof fn law_index_only_improves(
    m: EngineModel,
    form: Seq<char>,
    unary: Seq<char>,
    nullary: Seq<char>,
    outcome: (Result<u64, Failure>, Map<Seq<char>, u64>),
)
    ensures
        improves_on(m.after_stratum_nullary(form, outcome).min_index, m.min_index),
        improves_on(m.after_stratum_unary(form).min_index, m.min_index),
        improves_on(m.after_pair(unary, nullary, outcome).min_index, m.min_index),
        improves_on(m.after_retry(form, outcome).min_index, m.min_index),
        !m.given_up(form) && !m.value_known(form) ==> (outcome.0 matches Ok(v) ==> {
            let index = m.after_stratum_nullary(form, outcome).min_index;
            index.contains_key(v) && shortlex_le(index[v], form)
        }),
        !m.given_up(form) && m.value_known(form) ==> {
            let index = m.after_stratum_nullary(form, outcome).min_index;
            index.contains_key(m.known_value(form)) && shortlex_le(index[m.known_value(form)], form)
        },
        !m.given_up(apply_unary(unary, nullary)) && m.value_known(apply_unary(unary, nullary)) ==> {
            let c = apply_unary(unary, nullary);
            let index = m.after_pair(unary, nullary, outcome).min_index;
            index.contains_key(m.known_value(c)) && shortlex_le(index[m.known_value(c)], c)
        },
        !m.given_up(apply_unary(unary, nullary)) && !m.value_known(apply_unary(unary, nullary)) ==> (
        outcome.0 matches Ok(v) ==> {
            let index = m.after_pair(unary, nullary, outcome).min_index;
            index.contains_key(v) && shortlex_le(index[v], apply_unary(unary, nullary))
        }),
        outcome.0 matches Ok(v) ==> {
            let index = m.after_retry(form, outcome).min_index;
            index.contains_key(v) && shortlex_le(index[v], form)
        },
{
    lemma_improves_on_itself(m.min_index);
    let c = apply_unary(unary, nullary);
    lemma_offer_improves(m.min_index, m.known_value(form), form);
    lemma_offer_improves(m.min_index, m.known_value(c), c);
    law_offer_keeps_shortest(m.min_index, m.known_value(form), form);
    law_offer_keeps_shortest(m.min_index, m.known_value(c), c);
    if let Ok(v) = outcome.0 {
        lemma_offer_improves(m.min_index, v, form);
        lemma_offer_improves(m.min_index, v, apply_unary(unary, nullary));
        law_offer_keeps_shortest(m.min_index, v, form);
        law_offer_keeps_shortest(m.min_index, v, apply_unary(unary, nullary));
    }
}

proof fn lemma_improves_transitive(a: Map<u64, Seq<char>>, b: Map<u64, Seq<char>>, c: Map<u64, Seq<char>>)
    requires
        improves_on(b, a),
        improves_on(c, b),
    ensures
        improves_on(c, a),
{
    assert forall|v: u64| #[trigger] a.contains_key(v) implies c.contains_key(v) && shortlex_le(c[v], a[v]) by {
        lemma_shortlex_transitive(c[v], b[v], a[v]);
    }
}

/// The model after the items of a stratum, taken one after the other from
/// `m`, each nullary evaluated from the model it meets.
pub open spec fn swept(store: MapStore, limit: u64, m: EngineModel, items: Seq<(Seq<char>, bool)>) -> EngineModel
    decreases items.len(),
{
    if items.len() == 0 {
        m
    } else {
        let before = swept(store, limit, m, items.drop_last());
        let item = items.last();
        if item.1 {
            before.after_stratum_nullary(item.0, result_and_memo(model_evaluation(store, limit, before, item.0)))
        } else {
            before.after_stratum_unary(item.0)
        }
    }
}

proof fn lemma_sweep_improves(
    store: MapStore,
    limit: u64,
    m: EngineModel,
    items: Seq<(Seq<char>, bool)>,
    k: int,
)
    requires
        0 <= k <= items.len(),
    ensures
        improves_on(swept(store, limit, m, items).min_index, swept(store, limit, m, items.take(k)).min_index),
    decreases items.len(),
{
    if k == items.len() {
        assert(items.take(k) =~= items);
        lemma_improves_on_itself(swept(store, limit, m, items).min_index);
    } else {
        let rest = items.drop_last();
        lemma_sweep_improves(store, limit, m, rest, k);
        assert(rest.take(k) =~= items.take(k));
        let before = swept(store, limit, m, rest);
        let item = items.last();
        law_index_only_improves(
            before,
            item.0,
            item.0,
            item.0,
            result_and_memo(model_evaluation(store, limit, before, item.0)),
        );
        lemma_improves_transitive(
            swept(store, limit, m, items.take(k)).min_index,
            before.min_index,
            swept(store, limit, m, items).min_index,
        );
    }
}

/// A nullary is settled once it was given up on or its value is known.
pub open spec fn settled(m: EngineModel, form: Seq<char>) -> bool {
    m.given_up(form) || m.value_known(form)
}

/// The model after one item of a sweep.
pub open spec fn swept_item(store: MapStore, limit: u64, before: EngineModel, item: (Seq<char>, bool)) -> EngineModel {
    if item.1 {
        before.after_stratum_nullary(item.0, result_and_memo(model_evaluation(store, limit, before, item.0)))
    } else {
        before.after_stratum_unary(item.0)
    }
}

/// An item of a sweep leaves every settled nullary settled, and settles the
/// nullary it is.
proof fn lemma_item_settles(store: MapStore, limit: u64, before: EngineModel, item: (Seq<char>, bool), g: Seq<char>)
    ensures
        settled(before, g) ==> settled(swept_item(store, limit, before, item), g),
        item.1 ==> settled(swept_item(store, limit, before, item), item.0),
{
    let after = swept_item(store, limit, before, item);
    if item.1 {
        let lookup = TieredLookup { store: &store, pending: &batch_holding(before.pending_evaluations) };
        law_memo_only_grows(lookup, Some(limit), before.memo, 0, item.0);
        let o = model_evaluation(store, limit, before, item.0);
        assert(o == nullary_spec(lookup, Some(limit), before.memo, 0, item.0));
        if before.memo.contains_key(g) {
            assert(o.1.contains_key(g));
        }
    }
}

/// Once a stratum is swept, every nullary of it is settled: given up on, or
/// with its value known (memoised, pending or stored), so that none is left
/// unevaluated.
pub proof fn law_sweep_settles_every_nullary(
    store: MapStore,
    limit: u64,
    m: EngineModel,
    items: Seq<(Seq<char>, bool)>,
    k: int,
)
    requires
        0 <= k < items.len(),
        items[k].1,
    ensures
        settled(swept(store, limit, m, items), items[k].0),
{
    lemma_settled_after(store, limit, m, items, k, items.len() as int);
    assert(items.take(items.len() as int) =~= items);
}

proof fn lemma_settled_after(
    store: MapStore,
    limit: u64,
    m: EngineModel,
    items: Seq<(Seq<char>, bool)>,
    k: int,
    j: int,
)
    requires
        0 <= k < j <= items.len(),
        items[k].1,
    ensures
        settled(swept(store, limit, m, items.take(j)), items[k].0),
    decreases j - k,
{
    let prefix = items.take(j);
    assert(prefix.drop_last() =~= items.take(j - 1));
    assert(prefix.last() == items[j - 1]);
    let before = swept(store, limit, m, items.take(j - 1));
    assert(swept(store, limit, m, prefix) == swept_item(store, limit, before, items[j - 1]));
    lemma_item_settles(store, limit, before, items[j - 1], items[k].0);
    if j - 1 > k {
        lemma_settled_after(store, limit, m, items, k, j - 1);
    }
}

/// Once a stratum is swept, every nullary of it that has a value is indexed:
/// one evaluated when its turn came, and one whose value was already known
/// then (so a form that a crash left stored but out of the index is indexed
/// when its stratum is replayed); the index holds for that value a form no
/// longer than it.
pub proof fn law_swept_forms_are_indexed(
    store: MapStore,
    limit: u64,
    m: EngineModel,
    items: Seq<(Seq<char>, bool)>,
    k: int,
)
    requires
        0 <= k < items.len(),
        items[k].1,
    ensures
        ({
            let before = swept(store, limit, m, items.take(k));
            let form = items[k].0;
            let index = swept(store, limit, m, items).min_index;
            &&& !before.given_up(form) && !before.value_known(form) ==> (model_evaluation(store, limit, before, form).0 matches Ok(v)
                ==> index.contains_key(v) && shortlex_le(index[v], form))
            &&& !before.given_up(form) && before.value_known(form) ==> index.contains_key(
                before.known_value(form),
            ) && shortlex_le(index[before.known_value(form)], form)
        }),
{
    let before = swept(store, limit, m, items.take(k));
    let form = items[k].0;
    let outcome = result_and_memo(model_evaluation(store, limit, before, form));
    assert(items.take(k + 1).drop_last() =~= items.take(k));
    assert(items.take(k + 1).last() == items[k]);
    let after = swept(store, limit, m, items.take(k + 1));
    assert(after == before.after_stratum_nullary(form, outcome));
    law_index_only_improves(before, form, form, form, outcome);
    lemma_sweep_improves(store, limit, m, items, k + 1);
    let index = swept(store, limit, m, items).min_index;
    if let Ok(v) = outcome.0 {
        if !before.given_up(form) && !before.value_known(form) {
            lemma_shortlex_transitive(index[v], after.min_index[v], form);
        }
    }
    if !before.given_up(form) && before.value_known(form) {
        let kv = before.known_value(form);
        lemma_shortlex_transitive(index[kv], after.min_index[kv], form);
    }
}

/// The file of step-limited forms: `<root>/state/step_limited.tsv`.
pub fn step_limited_path(project_root: &str) -> (r: String)
    ensures
        r@ == crate::store::join_path(crate::store::join_path(project_root@, "state"@), "step_limited.tsv"@),
{
    let state = crate::store::join_path_text(project_root, "state");
    crate::store::join_path_text(state.as_str(), "step_limited.tsv")
}

impl Engine {
    /// The depth-mode cursor as last committed.
    pub fn depth_progress(&self) -> (r: &Progress)
        ensures
            *r == self.depth_cursor(),
    {
        &self.depth_progress
    }

    /// The length-mode cursor as last committed.
    pub fn length_progress(&self) -> (r: &LengthProgress)
        ensures
            *r == self.length_cursor(),
    {
        &self.length_progress
    }

    /// The entries of the value store's layers counted together.
    pub fn evaluations_len(&self) -> (r: usize)
        requires
            self.stores_intact(),
        ensures
            self.value_store().base_entries().len() + self.value_store().recent_entries().len()
                <= usize::MAX ==> r == self.value_store().base_entries().len()
                + self.value_store().recent_entries().len(),
    {
        self.evaluations.len()
    }

    /// The entries of the unary store's layers counted together.
    pub fn unaries_len(&self) -> (r: usize)
        requires
            self.stores_intact(),
        ensures
            self.unary_store().base_keys().len() + self.unary_store().recent_keys().len() <= usize::MAX
                ==> r == self.unary_store().base_keys().len() + self.unary_store().recent_keys().len(),
    {
        self.unaries.len()
    }

    /// The number of forms that await a retry with a larger step limit.
    pub fn step_limited_count(&self) -> (r: usize)
        ensures
            r == self.model().step_limited.len(),
    {
        texts_len(&self.step_limited)
    }

    /// The number of items processed since the engine was opened.
    pub fn items_processed(&self) -> (r: u64)
        ensures
            r == self.model().stats.items,
    {
        self.stats.items
    }

    /// The number of values the index of shortest forms covers.
    pub fn values_indexed(&self) -> (r: usize)
        ensures
            r == self.model().min_index.len(),
    {
        self.min_index.len()
    }
}

} // verus!
