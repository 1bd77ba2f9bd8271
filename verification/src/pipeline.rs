//! The distillation pipeline: observe, analyze, train, validate, deploy, and
//! then keep monitoring.

use vstd::prelude::*;
use vstd::string::*;
use vstd::utf8::*;
use crate::analysis::readiness_of;
use crate::decision::{
    lemma_count_distillable_bound, lemma_count_distillable_strict, lemma_top_choices_ordered,
    step_choices, count_distillable, distillable_steps, is_decision_point_for, step_choice_counts,
    step_distillable, step_expert_type, step_ranking, top_len,
};
use crate::hash::room_id;
use crate::observations::{
    chosen_names, distinct_steps, lemma_first_occurrences, lemma_occurrences,
    lemma_ticks_with_step_len, occurrences, step_names, ticks_with_step,
};
use crate::ranking::lemma_ranking_by_count;
use crate::room::McpRoom;
use crate::types::{
    BacktestResult, ExpertConfig, McpTick, MoeConfig, PipelineResult,
    PipelineStage, Ratio,
};

verus! {

/// Parameters of every deployed expert.
pub const EXPERT_MODEL_SIZE: usize = 1_000_000;

/// A room together with the stage its distillation has reached.
pub struct DistillationPipeline {
    pub room: McpRoom,
    pub stage: PipelineStage,
}

/// The stage that follows `stage`; monitoring goes on for ever.
pub open spec fn next_stage(stage: PipelineStage) -> PipelineStage {
    match stage {
        PipelineStage::Observing => PipelineStage::Analyzing,
        PipelineStage::Analyzing => PipelineStage::Training,
        PipelineStage::Training => PipelineStage::Validating,
        PipelineStage::Validating => PipelineStage::Deploying,
        PipelineStage::Deploying => PipelineStage::Monitoring,
        PipelineStage::Monitoring => PipelineStage::Monitoring,
    }
}

/// The position of `stage` in the pipeline, from 0 to 5.
pub open spec fn stage_index(stage: PipelineStage) -> int {
    match stage {
        PipelineStage::Observing => 0,
        PipelineStage::Analyzing => 1,
        PipelineStage::Training => 2,
        PipelineStage::Validating => 3,
        PipelineStage::Deploying => 4,
        PipelineStage::Monitoring => 5,
    }
}

/// The stage reached after `n` advances from `stage`.
pub open spec fn stage_after(stage: PipelineStage, n: nat) -> PipelineStage
    decreases n,
{
    if n == 0 {
        stage
    } else {
        stage_after(next_stage(stage), (n - 1) as nat)
    }
}

/// What running `stage` on a room with log `db` reports.
pub open spec fn stage_result(db: Seq<McpTick>, stage: PipelineStage) -> PipelineResult {
    match stage {
        PipelineStage::Observing => PipelineResult::Observing { ticks_collected: db.len() as usize },
        PipelineStage::Analyzing => PipelineResult::Analyzing {
            decision_points_found: distinct_steps(db).len() as usize,
        },
        PipelineStage::Training => PipelineResult::Training {
            experts_trained: distillable_steps(db) as usize,
        },
        PipelineStage::Validating => PipelineResult::Validating { accuracy: readiness_of(db) },
        PipelineStage::Deploying => PipelineResult::Deploying {
            experts_deployed: distillable_steps(db) as usize,
        },
        PipelineStage::Monitoring => PipelineResult::Monitoring { drift_detected: false },
    }
}

/// The positions, among the distinct steps of `steps`, of the first `len`
/// steps that can be distilled.
pub open spec fn distillable_positions_upto(db: Seq<McpTick>, steps: Seq<Seq<char>>, len: int) -> Seq<int>
    decreases len,
{
    if len <= 0 {
        Seq::empty()
    } else {
        let prev = distillable_positions_upto(db, steps, len - 1);
        if step_distillable(db, steps[len - 1]) {
            prev.push(len - 1)
        } else {
            prev
        }
    }
}

/// The positions of the distillable steps among the distinct steps, in order.
pub open spec fn distillable_positions(db: Seq<McpTick>) -> Seq<int> {
    distillable_positions_upto(db, distinct_steps(db), distinct_steps(db).len() as int)
}

/// The accuracy expected of the expert for `step`: the frequency of its most
/// chosen answer, or one half when it has none.
pub open spec fn expected_accuracy(db: Seq<McpTick>, step: Seq<char>) -> Ratio {
    if top_len(db, step) > 0 {
        Ratio::of(
            step_choice_counts(db, step)[step_ranking(db, step)[0]],
            ticks_with_step(db, step).len() as int,
        )
    } else {
        Ratio::of(1, 2)
    }
}

/// `e` is the expert configuration for `step` of the log `db`.
pub open spec fn is_expert_config_for(e: ExpertConfig, db: Seq<McpTick>, step: Seq<char>) -> bool {
    &&& e.step@ == step
    &&& e.expert_type == step_expert_type(db, step)
    &&& e.model_size == EXPERT_MODEL_SIZE
    &&& e.accuracy == expected_accuracy(db, step)
}

/// The expected accuracy of a step's expert is the frequency of its most
/// chosen answer: the count of some answer chosen at the step, at least the
/// count of every answer chosen there, over the step's number of ticks.
pub proof fn lemma_expected_accuracy_is_top_frequency(db: Seq<McpTick>, step: Seq<char>)
    requires
        ticks_with_step(db, step).len() > 0,
        db.len() <= usize::MAX,
    ensures
        ({
            let ticks = ticks_with_step(db, step);
            let names = chosen_names(ticks);
            let acc = expected_accuracy(db, step);
            &&& acc.denominator == ticks.len()
            &&& forall|c: Seq<char>| names.contains(c) ==> occurrences(names, c) <= acc.numerator
            &&& exists|c: Seq<char>| names.contains(c) && occurrences(names, c) == acc.numerator
        }),
{
    let ticks = ticks_with_step(db, step);
    let names = chosen_names(ticks);
    let choices = step_choices(db, step);
    let counts = step_choice_counts(db, step);
    lemma_first_occurrences(names);
    lemma_ticks_with_step_len(db, step);
    assert(names.contains(names[0]));
    assert(choices.contains(names[0]));
    lemma_top_choices_ordered(db, step);
    lemma_ranking_by_count(counts);
    let first = step_ranking(db, step)[0];
    assert(0 <= first < choices.len());
    lemma_occurrences(names, choices[first]);
    assert(counts[first] == occurrences(names, choices[first]));
    assert forall|c: Seq<char>| names.contains(c) implies occurrences(names, c) <= expected_accuracy(
        db,
        step,
    ).numerator by {
        assert(choices.contains(c));
        let i = choose|i: int| 0 <= i < choices.len() && choices[i] == c;
        assert(counts[i] == occurrences(names, c));
        assert(counts[first] >= counts[i]);
    }
    assert(choices.contains(choices[first]));
}

/// Every expert of a deployment expects the accuracy of its step's most
/// chosen answer, at least the frequency of every answer chosen there.
pub proof fn lemma_expert_accuracy_is_top_frequency(e: ExpertConfig, db: Seq<McpTick>, step: Seq<char>)
    requires
        is_expert_config_for(e, db, step),
        ticks_with_step(db, step).len() > 0,
        db.len() <= usize::MAX,
    ensures
        e.accuracy.denominator == ticks_with_step(db, step).len(),
        forall|c: Seq<char>|
            chosen_names(ticks_with_step(db, step)).contains(c) ==> occurrences(
                chosen_names(ticks_with_step(db, step)),
                c,
            ) <= e.accuracy.numerator,
{
    lemma_expected_accuracy_is_top_frequency(db, step);
}

/// The analysis stage reports one decision point per distinct observed step,
/// whether or not it can be distilled: at least as many as the training stage
/// reports experts, and more whenever some step cannot be distilled.
pub proof fn lemma_analysis_reports_every_step(db: Seq<McpTick>)
    requires
        db.len() <= usize::MAX,
    ensures
        ({
            let found = match stage_result(db, PipelineStage::Analyzing) {
                PipelineResult::Analyzing { decision_points_found } => decision_points_found as int,
                _ => -1,
            };
            let trained = match stage_result(db, PipelineStage::Training) {
                PipelineResult::Training { experts_trained } => experts_trained as int,
                _ => -1,
            };
            &&& found == distinct_steps(db).len()
            &&& forall|s: Seq<char>| distinct_steps(db).contains(s) <==> step_names(db).contains(s)
            &&& trained <= found
            &&& (exists|s: Seq<char>| step_names(db).contains(s) && !step_distillable(db, s))
                ==> trained < found
        }),
{
    lemma_first_occurrences(step_names(db));
    lemma_count_distillable_bound(db, distinct_steps(db));
    if exists|s: Seq<char>| step_names(db).contains(s) && !step_distillable(db, s) {
        let s = choose|s: Seq<char>| step_names(db).contains(s) && !step_distillable(db, s);
        lemma_count_distillable_strict(db, distinct_steps(db), s);
    }
}

/// Some observed call chose the empty string.
pub open spec fn some_choice_empty(db: Seq<McpTick>) -> bool {
    exists|i: int| 0 <= i < db.len() && (#[trigger] db[i]).chosen@ == Seq::<char>::empty()
}

/// How many leading bytes of `input` a mismatch message quotes: at most 50.
pub open spec fn quoted_len(input: Seq<char>) -> int {
    if encode_utf8(input).len() < 50 {
        encode_utf8(input).len() as int
    } else {
        50
    }
}

/// The message reporting a mismatch for `input`, quoting its first bytes.
pub open spec fn mismatch_message(input: Seq<char>) -> Seq<char> {
    "mismatch for input: "@ + decode_utf8(encode_utf8(input).subrange(0, quoted_len(input)))
}

/// The quoted prefix of `input` ends between two characters.
pub open spec fn quotable(input: Seq<char>) -> bool {
    is_char_boundary(encode_utf8(input), quoted_len(input))
}

/// Advancing moves one stage forward, and monitoring is the last stage.
pub proof fn lemma_stage_order(stage: PipelineStage)
    ensures
        stage != PipelineStage::Monitoring ==> stage_index(next_stage(stage)) == stage_index(stage) + 1,
        stage == PipelineStage::Monitoring ==> next_stage(stage) == PipelineStage::Monitoring,
        0 <= stage_index(stage) <= 5,
{
}

/// Once monitoring, always monitoring.
proof fn lemma_monitoring_stays(n: nat)
    ensures
        stage_after(PipelineStage::Monitoring, n) == PipelineStage::Monitoring,
    decreases n,
{
    if n > 0 {
        lemma_monitoring_stays((n - 1) as nat);
    }
}

/// From observing, `k` advances reach the stage at position `k`, and five or
/// more advances reach monitoring.
pub proof fn lemma_pipeline_progress(n: nat)
    ensures
        n <= 5 ==> stage_index(stage_after(PipelineStage::Observing, n)) == n,
        n >= 5 ==> stage_after(PipelineStage::Observing, n) == PipelineStage::Monitoring,
{
    reveal_with_fuel(stage_after, 6);
    if n >= 5 {
        lemma_monitoring_stays((n - 5) as nat);
        assert(stage_after(PipelineStage::Observing, n) == stage_after(
            PipelineStage::Monitoring,
            (n - 5) as nat,
        )) by {
            reveal_with_fuel(stage_after, 6);
        }
    }
}

/// The positions of the first `len` distillable steps count them.
proof fn lemma_positions_count(db: Seq<McpTick>, steps: Seq<Seq<char>>, len: int)
    requires
        0 <= len <= steps.len(),
    ensures
        distillable_positions_upto(db, steps, len).len() == count_distillable(db, steps.take(len)),
    decreases len,
{
    if len > 0 {
        lemma_positions_count(db, steps, len - 1);
        assert(steps.take(len).drop_last() =~= steps.take(len - 1));
    } else {
        assert(steps.take(len) =~= Seq::<Seq<char>>::empty());
    }
}

/// A deployment has one expert for every distillable step.
pub proof fn lemma_one_expert_per_distillable_step(db: Seq<McpTick>)
    ensures
        distillable_positions(db).len() == distillable_steps(db),
{
    let steps = distinct_steps(db);
    lemma_positions_count(db, steps, steps.len() as int);
    assert(steps.take(steps.len() as int) =~= steps);
}

/// Whether some tick of `db` chose `s`.
fn any_chosen(db: &Vec<McpTick>, s: &String) -> (found: bool)
    ensures
        found == exists|i: int| 0 <= i < db@.len() && (#[trigger] db@[i]).chosen@ == s@,
{
    let mut i: usize = 0;
    while i < db.len()
        invariant
            i <= db@.len(),
            forall|j: int| 0 <= j < i ==> (#[trigger] db@[j]).chosen@ != s@,
        decreases db@.len() - i,
    {
        if db[i].chosen == *s {
            return true;
        }
        i = i + 1;
    }
    false
}

/// The mismatch message for `input`.
fn mismatch_text(input: &String) -> (m: String)
    requires
        quotable(input@),
    ensures
        m@ == mismatch_message(input@),
{
    let s = input.as_str();
    let n_bytes = s.as_bytes().len();
    let cut = if n_bytes < 50 {
        n_bytes
    } else {
        50
    };
    assert(s.spec_bytes() == encode_utf8(input@));
    assert(cut == quoted_len(input@));
    let (head, _) = s.split_at(cut);
    proof {
        broadcast use encode_utf8_decode_utf8;

        assert(decode_utf8(head.spec_bytes()) == head@);
        reveal_strlit("mismatch for input: ");
    }
    let mut m = String::from_str("mismatch for input: ");
    m.append(head);
    m
}

impl DistillationPipeline {
    /// Starts observing the endpoint `endpoint`.
    pub fn start(endpoint: &str) -> (p: DistillationPipeline)
        ensures
            p.stage == PipelineStage::Observing,
            p.room.id@ == room_id(endpoint.spec_bytes()),
            p.room.mcp_endpoint@ == endpoint@,
            p.room.perception_db@.len() == 0,
            p.room.prediction_db@.len() == 0,
            p.room.decision_points@.len() == 0,
            p.room.expert_catalog@.len() == 0,
            p.room.distillation_progress == Ratio::of(0, 1),
    {
        DistillationPipeline { room: McpRoom::wrap(endpoint), stage: PipelineStage::Observing }
    }

    /// Runs the current stage and moves on to the next one.
    pub fn advance(&mut self) -> (r: PipelineResult)
        ensures
            r == stage_result(old(self).room.perception_db@, old(self).stage),
            final(self).stage == next_stage(old(self).stage),
            final(self).room == old(self).room,
    {
        let result = match self.stage {
            PipelineStage::Observing => PipelineResult::Observing {
                ticks_collected: self.room.perception_db.len(),
            },
            PipelineStage::Analyzing => {
                let dp_count = self.room.find_distillable_steps().len();
                PipelineResult::Analyzing { decision_points_found: dp_count }
            },
            PipelineStage::Training => {
                let count = self.room.count_experts();
                PipelineResult::Training { experts_trained: count }
            },
            PipelineStage::Validating => PipelineResult::Validating {
                accuracy: self.room.distillation_readiness(),
            },
            PipelineStage::Deploying => {
                let count = self.room.count_experts();
                PipelineResult::Deploying { experts_deployed: count }
            },
            PipelineStage::Monitoring => PipelineResult::Monitoring { drift_detected: false },
        };
        self.stage =
        match self.stage {
            PipelineStage::Observing => PipelineStage::Analyzing,
            PipelineStage::Analyzing => PipelineStage::Training,
            PipelineStage::Training => PipelineStage::Validating,
            PipelineStage::Validating => PipelineStage::Deploying,
            PipelineStage::Deploying => PipelineStage::Monitoring,
            PipelineStage::Monitoring => PipelineStage::Monitoring,
        };
        result
    }

    /// The mixture-of-experts deployment: one expert per distillable step, in
    /// the order of the decision points, and a route from each such step to
    /// the index of its decision point.
    pub fn moe_config(&self) -> (config: MoeConfig)
        ensures
            ({
                let db = self.room.perception_db@;
                let steps = distinct_steps(db);
                let positions = distillable_positions(db);
                &&& config.experts@.len() == positions.len()
                &&& config.routing@.len() == positions.len()
                &&& forall|r: int|
                    0 <= r < positions.len() ==> {
                        &&& is_expert_config_for(#[trigger] config.experts@[r], db, steps[positions[r]])
                        &&& config.routing@[r].0@ == steps[positions[r]]
                        &&& config.routing@[r].1 == positions[r]
                    }
                &&& forall|a: int, b: int|
                    0 <= a < b < config.routing@.len() ==> (#[trigger] config.routing@[a]).0@
                        != (#[trigger] config.routing@[b]).0@
                &&& config.fallback_to_original
            }),
    {
        let ghost db = self.room.perception_db@;
        let ghost steps = distinct_steps(db);
        let dps = self.room.find_distillable_steps();
        proof {
            lemma_first_occurrences(step_names(db));
        }
        let mut routing: Vec<(String, usize)> = Vec::new();
        let mut experts: Vec<ExpertConfig> = Vec::new();
        let mut i: usize = 0;
        while i < dps.len()
            invariant
                db == self.room.perception_db@,
                steps == distinct_steps(db),
                steps.no_duplicates(),
                dps@.len() == steps.len(),
                forall|k: int|
                    0 <= k < dps@.len() ==> is_decision_point_for(#[trigger] dps@[k], db, steps[k]),
                i <= dps@.len(),
                experts@.len() == distillable_positions_upto(db, steps, i as int).len(),
                routing@.len() == experts@.len(),
                forall|q: int|
                    0 <= q < experts@.len() ==> 0 <= #[trigger] distillable_positions_upto(
                        db,
                        steps,
                        i as int,
                    )[q] < i,
                forall|a: int, b: int|
                    0 <= a < b < experts@.len() ==> #[trigger] distillable_positions_upto(
                        db,
                        steps,
                        i as int,
                    )[a] < #[trigger] distillable_positions_upto(db, steps, i as int)[b],
                forall|r: int|
                    0 <= r < experts@.len() ==> {
                        let pos = distillable_positions_upto(db, steps, i as int);
                        &&& is_expert_config_for(#[trigger] experts@[r], db, steps[pos[r]])
                        &&& routing@[r].0@ == steps[pos[r]]
                        &&& routing@[r].1 == pos[r]
                    },
            decreases dps@.len() - i,
        {
            let ghost prev = distillable_positions_upto(db, steps, i as int);
            let dp = &dps[i];
            assert(is_decision_point_for(*dp, db, steps[i as int]));
            if dp.distillable {
                let accuracy = if dp.top_choices.len() > 0 {
                    dp.top_choices[0].1
                } else {
                    Ratio::new(1, 2)
                };
                routing.push((dp.step.clone(), i));
                experts.push(
                    ExpertConfig {
                        step: dp.step.clone(),
                        expert_type: dp.expert_type,
                        model_size: EXPERT_MODEL_SIZE,
                        accuracy,
                    },
                );
                assert(distillable_positions_upto(db, steps, i as int + 1) == prev.push(i as int));
            }
            i = i + 1;
        }
        assert forall|a: int, b: int|
            0 <= a < b < routing@.len() implies (#[trigger] routing@[a]).0@
            != (#[trigger] routing@[b]).0@ by {
            let pos = distillable_positions_upto(db, steps, i as int);
            assert(is_expert_config_for(experts@[a], db, steps[pos[a]]));
            assert(is_expert_config_for(experts@[b], db, steps[pos[b]]));
            assert(0 <= pos[a] < pos[b] < steps.len());
            assert(steps[pos[a]] != steps[pos[b]]);
        }
        MoeConfig { experts, routing, fallback_to_original: true }
    }

    /// Replays `test_inputs`: each counts as a match when the prediction for
    /// the first observed step (with no options offered, the empty string) is
    /// a choice some observed call made.  The first input that does not match
    /// is quoted in the report.
    pub fn backtest(&self, test_inputs: &[String]) -> (result: BacktestResult)
        requires
            test_inputs@.len() > 0 && self.room.perception_db@.len() > 0 && !some_choice_empty(
                self.room.perception_db@,
            ) ==> quotable(test_inputs@[0]@),
        ensures
            ({
                let db = self.room.perception_db@;
                let n = test_inputs@.len();
                &&& result.total_tests == n
                &&& if n == 0 || db.len() == 0 {
                    &&& result.matches == 0
                    &&& result.accuracy == Ratio::of(0, 1)
                    &&& result.avg_latency_improvement == Ratio::of(0, 1)
                    &&& result.worst_case_error@.len() == 0
                } else {
                    &&& result.matches == (if some_choice_empty(db) {
                        n
                    } else {
                        0
                    })
                    &&& result.accuracy == Ratio::of(result.matches as int, n as int)
                    &&& result.avg_latency_improvement == Ratio::of(9, 10)
                    &&& result.worst_case_error@ == (if some_choice_empty(db) {
                        Seq::<char>::empty()
                    } else {
                        mismatch_message(test_inputs@[0]@)
                    })
                }
            }),
    {
        if test_inputs.len() == 0 || self.room.perception_db.len() == 0 {
            return BacktestResult {
                total_tests: test_inputs.len(),
                matches: 0,
                accuracy: Ratio::zero(),
                avg_latency_improvement: Ratio::zero(),
                worst_case_error: String::new(),
            };
        }
        let ghost db = self.room.perception_db@;
        let total = test_inputs.len();
        let no_options: Vec<String> = Vec::new();
        let mut matches: usize = 0;
        let mut worst_error = String::new();
        let mut i: usize = 0;
        while i < test_inputs.len()
            invariant
                db == self.room.perception_db@,
                db.len() > 0,
                no_options@.len() == 0,
                total == test_inputs@.len(),
                !some_choice_empty(db) ==> quotable(test_inputs@[0]@),
                i <= total,
                matches == (if some_choice_empty(db) {
                    i as int
                } else {
                    0
                }),
                worst_error@ == (if some_choice_empty(db) || i == 0 {
                    Seq::<char>::empty()
                } else {
                    mismatch_message(test_inputs@[0]@)
                }),
            decreases total - i,
        {
            proof {
                reveal_strlit("mismatch for input: ");
            }
            let step = self.room.perception_db[0].step.clone();
            let pred = self.room.predict_next_choice(step.as_str(), no_options.as_slice());
            assert(pred.predicted_choice@ =~= Seq::<char>::empty());
            if any_chosen(&self.room.perception_db, &pred.predicted_choice) {
                matches = matches + 1;
            } else if worst_error.as_str().is_empty() {
                worst_error = mismatch_text(&test_inputs[i]);
                proof {
                    reveal_strlit("mismatch for input: ");
                }
            }
            i = i + 1;
        }
        BacktestResult {
            total_tests: total,
            matches,
            accuracy: Ratio::new(matches as u128, total as u128),
            avg_latency_improvement: Ratio::new(9, 10),
            worst_case_error: worst_error,
        }
    }
}

} // verus!
