//! The data the rooms record and report.
//!
//! Every quantity that is a proportion or an average is carried as an exact
//! [`Ratio`] of integers; callers that want a floating-point value divide the
//! numerator by the denominator.

use vstd::prelude::*;

verus! {

/// An exact non-negative rational number `numerator / denominator`.
#[derive(Clone, Copy, Debug, PartialEq, Eq, Structural)]
pub struct Ratio {
    pub numerator: u128,
    pub denominator: u128,
}

impl Ratio {
    /// The ratio `numerator / denominator`.
    pub open spec fn of(numerator: int, denominator: int) -> Ratio {
        Ratio { numerator: numerator as u128, denominator: denominator as u128 }
    }

    /// Builds `numerator / denominator`.
    pub fn new(numerator: u128, denominator: u128) -> (r: Ratio)
        ensures
            r == Ratio::of(numerator as int, denominator as int),
    {
        Ratio { numerator, denominator }
    }

    /// Zero, written `0 / 1`.
    pub fn zero() -> (r: Ratio)
        ensures
            r == Ratio::of(0, 1),
    {
        Ratio { numerator: 0, denominator: 1 }
    }

    /// Whether the ratio lies in the closed interval [0, 1].
    pub open spec fn is_unit(self) -> bool {
        self.denominator > 0 && self.numerator <= self.denominator
    }
}

/// One observed model call.
#[derive(Clone, Debug)]
pub struct McpTick {
    pub timestamp: u64,
    pub step: String,
    pub prompt: String,
    pub options: Vec<String>,
    pub chosen: String,
    pub reasoning: Option<String>,
    pub latency_ms: u64,
    pub model_used: String,
    pub token_count: u32,
}

/// The kind of small model that can take over a decision step.
#[derive(Clone, Copy, Debug, PartialEq, Eq, Structural)]
pub enum ExpertType {
    Classifier,
    Selector,
    Generator,
    Router,
    Validator,
    Synthesizer,
}

/// What was learned about one step of the observed workflow.
#[derive(Clone, Debug)]
pub struct DecisionPoint {
    pub step: String,
    pub average_options: Ratio,
    pub top_choices: Vec<(String, Ratio)>,
    pub expert_type: ExpertType,
    pub distillable: bool,
}

/// Cost and latency of the original calls against distilled experts.
#[derive(Clone, Copy, Debug)]
pub struct SavingsEstimate {
    pub original_cost_per_call: Ratio,
    pub distilled_cost_per_call: Ratio,
    pub reduction_factor: Ratio,
    pub original_latency_ms: u64,
    pub distilled_latency_ms: u64,
    pub latency_improvement: Ratio,
}

/// Summary of the observations of a room.
#[derive(Clone, Copy, Debug)]
pub struct Analysis {
    pub total_calls: usize,
    pub unique_steps: usize,
    pub decision_points: usize,
    pub experts_needed: usize,
    pub estimated_distillation_size: usize,
    pub coverage: Ratio,
    pub savings_estimate: SavingsEstimate,
}

/// One supervised example for training an expert.
#[derive(Clone, Debug)]
pub struct TrainingExample {
    pub input: String,
    pub options: Vec<String>,
    pub correct_output: String,
    pub reasoning: Option<String>,
}

/// A guess of the next choice at a step, with the other options ranked after it.
#[derive(Clone, Debug)]
pub struct Prediction {
    pub predicted_choice: String,
    pub confidence: Ratio,
    pub alternatives: Vec<(String, Ratio)>,
}

/// What a garbage collection of old observations did.
#[derive(Clone, Copy, Debug)]
pub struct GcReport {
    pub observations_before: usize,
    pub observations_after: usize,
    pub merged: usize,
    pub pruned: usize,
    pub information_preserved: Ratio,
}

/// The stages of a distillation, in the order they are run.
#[derive(Clone, Copy, Debug, PartialEq, Eq, Structural)]
pub enum PipelineStage {
    Observing,
    Analyzing,
    Training,
    Validating,
    Deploying,
    Monitoring,
}

/// What one stage of the pipeline reported.
#[derive(Clone, Copy, Debug)]
pub enum PipelineResult {
    Observing { ticks_collected: usize },
    Analyzing { decision_points_found: usize },
    Training { experts_trained: usize },
    Validating { accuracy: Ratio },
    Deploying { experts_deployed: usize },
    Monitoring { drift_detected: bool },
}

/// One expert of a mixture-of-experts deployment.
#[derive(Clone, Debug)]
pub struct ExpertConfig {
    pub step: String,
    pub expert_type: ExpertType,
    pub model_size: usize,
    pub accuracy: Ratio,
}

/// A mixture-of-experts deployment: the experts, and for each distillable step
/// the index of its decision point.  No step occurs twice in `routing`.
#[derive(Clone, Debug)]
pub struct MoeConfig {
    pub experts: Vec<ExpertConfig>,
    pub routing: Vec<(String, usize)>,
    pub fallback_to_original: bool,
}

/// Outcome of replaying test inputs against the recorded choices.
#[derive(Clone, Debug)]
pub struct BacktestResult {
    pub total_tests: usize,
    pub matches: usize,
    pub accuracy: Ratio,
    pub avg_latency_improvement: Ratio,
    pub worst_case_error: String,
}

} // verus!
