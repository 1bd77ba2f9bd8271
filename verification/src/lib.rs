//! Observation of model-call endpoints ("rooms") and the bookkeeping that
//! decides which decision steps can be distilled into small experts.

pub mod analysis;
pub mod decision;
pub mod hash;
pub mod maintenance;
pub mod observations;
pub mod order_free;
pub mod pipeline;
pub mod prediction;
pub mod ranking;
pub mod room;
pub mod types;

pub use hash::simple_hash;
pub use pipeline::DistillationPipeline;
pub use room::McpRoom;
pub use types::{
    Analysis, BacktestResult, DecisionPoint, ExpertConfig, ExpertType, GcReport, McpTick,
    MoeConfig, PipelineResult, PipelineStage, Prediction, Ratio, SavingsEstimate,
    TrainingExample,
};
