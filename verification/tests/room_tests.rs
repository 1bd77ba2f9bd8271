use lib::{DistillationPipeline, McpRoom, McpTick, PipelineStage, Ratio};

fn make_tick(step: &str, options: Vec<&str>, chosen: &str, ts: u64) -> McpTick {
    McpTick {
        timestamp: ts,
        step: step.to_string(),
        prompt: format!("prompt for {}", step),
        options: options.into_iter().map(String::from).collect(),
        chosen: chosen.to_string(),
        reasoning: Some("test reasoning".to_string()),
        latency_ms: 100,
        model_used: "test-model".to_string(),
        token_count: 50,
    }
}

fn value(r: &Ratio) -> f64 {
    r.numerator as f64 / r.denominator as f64
}

#[test]
fn test_wrap_creates_valid_room() {
    let room = McpRoom::wrap("http://localhost:8080/mcp");
    assert!(!room.id.is_empty());
    assert_eq!(room.mcp_endpoint, "http://localhost:8080/mcp");
    assert!(room.perception_db.is_empty());
    assert!(room.prediction_db.is_empty());
    assert_eq!(value(&room.distillation_progress), 0.0);
}

#[test]
fn test_intercept_call_logs_to_perception() {
    let mut room = McpRoom::wrap("http://localhost:8080");
    room.intercept_call(make_tick("step1", vec!["a", "b"], "a", 1000));
    assert_eq!(room.perception_db.len(), 1);
    assert_eq!(room.perception_db[0].step, "step1");
}

#[test]
fn test_analyze_finds_decision_points() {
    let mut room = McpRoom::wrap("http://localhost:8080");
    for i in 0..5 {
        room.intercept_call(make_tick("classify", vec!["cat", "dog"], "cat", 1000 + i));
    }
    let analysis = room.analyze();
    assert_eq!(analysis.total_calls, 5);
    assert!(analysis.unique_steps >= 1);
}

#[test]
fn test_find_distillable_steps() {
    let mut room = McpRoom::wrap("http://localhost:8080");
    room.intercept_call(make_tick("route", vec!["a", "b", "c"], "a", 1000));
    room.intercept_call(make_tick("route", vec!["a", "b", "c"], "b", 1001));
    room.intercept_call(make_tick("route", vec!["a", "b", "c"], "a", 1002));
    let steps = room.find_distillable_steps();
    assert!(!steps.is_empty());
    assert!(steps.iter().any(|s| s.step == "route"));
}

#[test]
fn test_count_experts() {
    let mut room = McpRoom::wrap("http://localhost:8080");
    for i in 0..3 {
        room.intercept_call(make_tick("s1", vec!["x", "y"], "x", 1000 + i));
        room.intercept_call(make_tick("s2", vec!["a", "b"], "a", 1000 + i));
    }
    let count = room.count_experts();
    assert!(count >= 1);
}

#[test]
fn test_generate_training_data() {
    let mut room = McpRoom::wrap("http://localhost:8080");
    room.intercept_call(make_tick("gen", vec!["opt1", "opt2"], "opt1", 1000));
    room.intercept_call(make_tick("gen", vec!["opt1", "opt2"], "opt2", 1001));
    room.intercept_call(make_tick("other", vec!["x"], "x", 1002));
    let data = room.generate_training_data("gen");
    assert_eq!(data.len(), 2);
    assert_eq!(data[0].correct_output, "opt1");
}

#[test]
fn test_predict_next_choice() {
    let mut room = McpRoom::wrap("http://localhost:8080");
    room.intercept_call(make_tick("pick", vec!["a", "b"], "a", 1000));
    room.intercept_call(make_tick("pick", vec!["a", "b"], "a", 1001));
    room.intercept_call(make_tick("pick", vec!["a", "b"], "b", 1002));
    let pred = room.predict_next_choice("pick", &["a".to_string(), "b".to_string()]);
    assert_eq!(pred.predicted_choice, "a");
    assert!(value(&pred.confidence) > 0.0);
}

#[test]
fn test_prediction_accuracy_increases() {
    let mut room = McpRoom::wrap("http://localhost:8080");
    // With no data, accuracy is 0
    assert_eq!(value(&room.prediction_accuracy()), 0.0);

    // Add matching prediction + perception pairs
    for i in 0..10 {
        room.perception_db.push(make_tick("s", vec!["a", "b"], "a", 1000 + i));
        room.prediction_db.push(make_tick("s", vec!["a", "b"], "a", 1000 + i));
    }
    let acc = room.prediction_accuracy();
    assert!(value(&acc) > 0.5);
}

#[test]
fn test_balance_check() {
    let mut room = McpRoom::wrap("http://localhost:8080");
    assert!(room.balance_check()); // both empty

    room.intercept_call(make_tick("s", vec!["a"], "a", 1000));
    assert!(!room.balance_check()); // perception has 1, prediction has 0

    room.prediction_db.push(make_tick("s", vec!["a"], "a", 1000));
    assert!(room.balance_check());
}

#[test]
fn test_gc_reduces_observations() {
    let mut room = McpRoom::wrap("http://localhost:8080");
    room.intercept_call(make_tick("s", vec!["a"], "a", 100));
    room.intercept_call(make_tick("s", vec!["a"], "a", 200));
    room.intercept_call(make_tick("s", vec!["a"], "a", 300));
    let report = room.gc(50); // max_age=50, max_ts=300, keep >= 250
    assert!(report.observations_after < report.observations_before);
    assert!(report.pruned > 0);
}

#[test]
fn test_gc_preserves_information() {
    let mut room = McpRoom::wrap("http://localhost:8080");
    for i in 0..20 {
        room.intercept_call(make_tick("s", vec!["a"], "a", 1000 + i * 10));
    }
    let report = room.gc(100); // keep last ~10
    assert!(value(&report.information_preserved) > 0.0);
}

#[test]
fn test_distillation_readiness_starts_low() {
    let room = McpRoom::wrap("http://localhost:8080");
    assert_eq!(value(&room.distillation_readiness()), 0.0);
}

#[test]
fn test_distillation_readiness_increases() {
    let mut room = McpRoom::wrap("http://localhost:8080");
    for i in 0..50 {
        room.intercept_call(make_tick("step1", vec!["a", "b"], "a", 1000 + i));
        room.intercept_call(make_tick("step2", vec!["x", "y", "z"], "x", 1000 + i));
    }
    let readiness = room.distillation_readiness();
    assert!(value(&readiness) > 0.0);
}

#[test]
fn test_pipeline_advances_through_stages() {
    let mut pipeline = DistillationPipeline::start("http://localhost:8080");
    assert_eq!(pipeline.stage, PipelineStage::Observing);

    let _r = pipeline.advance();
    assert_eq!(pipeline.stage, PipelineStage::Analyzing);

    let _r = pipeline.advance();
    assert_eq!(pipeline.stage, PipelineStage::Training);

    let _r = pipeline.advance();
    assert_eq!(pipeline.stage, PipelineStage::Validating);
}

#[test]
fn test_backtest_compares() {
    let mut pipeline = DistillationPipeline::start("http://localhost:8080");
    for i in 0..10 {
        pipeline.room.intercept_call(make_tick("s", vec!["a", "b"], "a", 1000 + i));
    }
    let result = pipeline.backtest(&["test1".to_string(), "test2".to_string()]);
    assert_eq!(result.total_tests, 2);
}

#[test]
fn test_moe_config_has_correct_routing() {
    let mut pipeline = DistillationPipeline::start("http://localhost:8080");
    for i in 0..5 {
        pipeline.room.intercept_call(make_tick("route_step", vec!["a", "b"], "a", 1000 + i));
    }
    let config = pipeline.moe_config();
    assert!(config.fallback_to_original);
    // Should have at least one expert for route_step
    assert!(!config.experts.is_empty() || config.routing.is_empty());
}
