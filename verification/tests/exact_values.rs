use lib::{
    simple_hash, DistillationPipeline, ExpertType, McpRoom, McpTick, PipelineResult,
    PipelineStage, Ratio,
};

fn tick(step: &str, options: &[&str], chosen: &str, ts: u64, latency: u64) -> McpTick {
    McpTick {
        timestamp: ts,
        step: step.to_string(),
        prompt: format!("q-{}-{}", step, ts),
        options: options.iter().map(|o| o.to_string()).collect(),
        chosen: chosen.to_string(),
        reasoning: if ts % 2 == 0 { Some(format!("why {}", ts)) } else { None },
        latency_ms: latency,
        model_used: "m".to_string(),
        token_count: 7,
    }
}

fn ratio(n: u128, d: u128) -> Ratio {
    Ratio { numerator: n, denominator: d }
}

fn room_with(ticks: Vec<McpTick>) -> McpRoom {
    let mut room = McpRoom::wrap("endpoint");
    for t in ticks {
        room.intercept_call(t);
    }
    room
}

#[test]
fn hash_of_known_strings() {
    assert_eq!(simple_hash(""), 5381);
    assert_eq!(simple_hash("a"), 177670);
    assert_eq!(simple_hash("http://localhost:8080/mcp"), 1707836976871084703);
}

#[test]
fn room_id_is_hash_modulo_in_decimal() {
    assert_eq!(McpRoom::wrap("").id, "room-5381");
    assert_eq!(McpRoom::wrap("a").id, "room-77670");
    assert_eq!(McpRoom::wrap("http://localhost:8080/mcp").id, "room-84703");
    assert_eq!(McpRoom::wrap("http://localhost:8080").id, "room-95280");
}

#[test]
fn wrap_is_deterministic() {
    let a = McpRoom::wrap("http://x");
    let b = McpRoom::wrap("http://x");
    assert_eq!(a.id, b.id);
    assert_eq!(a.distillation_progress, ratio(0, 1));
}

#[test]
fn top_choices_ranked_by_count_then_first_seen() {
    let room = room_with(vec![
        tick("s", &["a", "b", "c"], "b", 1, 10),
        tick("s", &["a", "b", "c"], "a", 2, 10),
        tick("s", &["a", "b", "c"], "c", 3, 10),
        tick("s", &["a", "b", "c"], "a", 4, 10),
        tick("s", &["a", "b", "c"], "b", 5, 10),
    ]);
    let dps = room.find_distillable_steps();
    assert_eq!(dps.len(), 1);
    let dp = &dps[0];
    assert_eq!(dp.step, "s");
    assert_eq!(dp.average_options, ratio(15, 5));
    let names: Vec<&str> = dp.top_choices.iter().map(|(n, _)| n.as_str()).collect();
    assert_eq!(names, vec!["b", "a", "c"]);
    assert_eq!(dp.top_choices[0].1, ratio(2, 5));
    assert_eq!(dp.top_choices[2].1, ratio(1, 5));
    assert_eq!(dp.expert_type, ExpertType::Classifier);
    assert!(dp.distillable);
}

#[test]
fn top_choices_keep_at_most_five() {
    let mut ticks = Vec::new();
    for (i, c) in ["a", "b", "c", "d", "e", "f", "g"].iter().enumerate() {
        ticks.push(tick("s", &["x"], c, i as u64, 1));
    }
    ticks.push(tick("s", &["x"], "g", 99, 1));
    let room = room_with(ticks);
    let dp = &room.find_distillable_steps()[0];
    let names: Vec<&str> = dp.top_choices.iter().map(|(n, _)| n.as_str()).collect();
    assert_eq!(names, vec!["g", "a", "b", "c", "d"]);
}

#[test]
fn decision_points_follow_first_appearance() {
    let room = room_with(vec![
        tick("z", &["a"], "a", 1, 1),
        tick("y", &["a"], "a", 2, 1),
        tick("z", &["a"], "a", 3, 1),
        tick("x", &["a"], "a", 4, 1),
    ]);
    let steps: Vec<String> = room.find_distillable_steps().into_iter().map(|d| d.step).collect();
    assert_eq!(steps, vec!["z", "y", "x"]);
}

#[test]
fn expert_types_by_average_options() {
    let five = ["1", "2", "3", "4", "5"];
    let eleven = ["1", "2", "3", "4", "5", "6", "7", "8", "9", "10", "11"];
    let room = room_with(vec![
        tick("cls", &["a", "b"], "a", 1, 1),
        tick("cls", &["a", "b"], "a", 2, 1),
        tick("cls", &["a", "b"], "b", 3, 1),
        tick("sel", &five, "1", 4, 1),
        tick("rou", &eleven, "1", 5, 1),
        tick("val", &["a", "b"], "a", 6, 1),
        tick("val", &["a", "b"], "a", 7, 1),
        tick("gen", &["a", "b"], "a", 8, 1),
        tick("gen", &["a", "b"], "b", 9, 1),
    ]);
    let dps = room.find_distillable_steps();
    let kinds: Vec<ExpertType> = dps.iter().map(|d| d.expert_type).collect();
    assert_eq!(
        kinds,
        vec![
            ExpertType::Classifier,
            ExpertType::Selector,
            ExpertType::Router,
            ExpertType::Validator,
            ExpertType::Generator,
        ]
    );
    let distillable: Vec<bool> = dps.iter().map(|d| d.distillable).collect();
    assert_eq!(distillable, vec![true, false, false, true, true]);
    assert_eq!(room.count_experts(), 3);
}

#[test]
fn steps_without_options_are_not_distillable() {
    let room = room_with(vec![tick("s", &[], "", 1, 1), tick("s", &[], "", 2, 1)]);
    let dps = room.find_distillable_steps();
    assert_eq!(dps[0].average_options, ratio(0, 2));
    assert!(!dps[0].distillable);
    assert_eq!(room.count_experts(), 0);
}

#[test]
fn analyze_exact_values() {
    let room = room_with(vec![
        tick("a", &["x", "y"], "x", 1, 100),
        tick("a", &["x", "y"], "x", 2, 200),
        tick("b", &["x"], "x", 3, 301),
    ]);
    let a = room.analyze();
    assert_eq!(a.total_calls, 3);
    assert_eq!(a.unique_steps, 2);
    assert_eq!(a.decision_points, 2);
    assert_eq!(a.experts_needed, 1);
    assert_eq!(a.estimated_distillation_size, 1_000_000);
    assert_eq!(a.coverage, ratio(1, 2));
    assert_eq!(a.savings_estimate.original_latency_ms, 200);
    assert_eq!(a.savings_estimate.distilled_latency_ms, 20);
    assert_eq!(a.savings_estimate.latency_improvement, ratio(9, 10));
    assert_eq!(a.savings_estimate.reduction_factor, ratio(100, 1));
    assert_eq!(a.savings_estimate.original_cost_per_call, ratio(3, 1000));
    assert_eq!(a.savings_estimate.distilled_cost_per_call, ratio(3, 100000));
}

#[test]
fn analyze_empty_room() {
    let room = McpRoom::wrap("e");
    let a = room.analyze();
    assert_eq!(a.total_calls, 0);
    assert_eq!(a.unique_steps, 0);
    assert_eq!(a.coverage, ratio(0, 1));
    assert_eq!(a.savings_estimate.original_latency_ms, 0);
    assert_eq!(a.savings_estimate.latency_improvement, ratio(0, 1));
}

#[test]
fn training_examples_copy_the_ticks() {
    let room = room_with(vec![
        tick("g", &["o1", "o2"], "o2", 2, 1),
        tick("h", &["z"], "z", 3, 1),
        tick("g", &["o3"], "o3", 5, 1),
    ]);
    let data = room.generate_training_data("g");
    assert_eq!(data.len(), 2);
    assert_eq!(data[0].input, "q-g-2");
    assert_eq!(data[0].options, vec!["o1".to_string(), "o2".to_string()]);
    assert_eq!(data[0].correct_output, "o2");
    assert_eq!(data[0].reasoning, Some("why 2".to_string()));
    assert_eq!(data[1].reasoning, None);
    assert!(room.generate_training_data("nothing").is_empty());
}

#[test]
fn prediction_exact_values() {
    let room = room_with(vec![
        tick("p", &["a", "b"], "a", 1, 1),
        tick("p", &["a", "b"], "b", 2, 1),
        tick("p", &["a", "b"], "b", 3, 1),
    ]);
    let options = vec!["a".to_string(), "c".to_string(), "b".to_string()];
    let pred = room.predict_next_choice("p", &options);
    assert_eq!(pred.predicted_choice, "b");
    assert_eq!(pred.confidence, ratio(2, 3));
    assert_eq!(pred.alternatives.len(), 2);
    assert_eq!(pred.alternatives[0].0, "a");
    assert_eq!(pred.alternatives[0].1, ratio(1, 3));
    assert_eq!(pred.alternatives[1].0, "c");
    assert_eq!(pred.alternatives[1].1, ratio(0, 3));
}

#[test]
fn prediction_ties_keep_option_order() {
    let room = room_with(vec![tick("p", &["a"], "x", 1, 1), tick("p", &["a"], "y", 2, 1)]);
    let pred = room.predict_next_choice("p", &["y".to_string(), "x".to_string()]);
    assert_eq!(pred.predicted_choice, "y");
    assert_eq!(pred.alternatives[0].0, "x");
}

#[test]
fn prediction_without_data_or_options() {
    let room = room_with(vec![tick("p", &["a"], "a", 1, 1)]);
    let pred = room.predict_next_choice("unknown", &["first".to_string(), "second".to_string()]);
    assert_eq!(pred.predicted_choice, "first");
    assert_eq!(pred.confidence, ratio(0, 1));
    assert!(pred.alternatives.is_empty());
    let pred = room.predict_next_choice("p", &[]);
    assert_eq!(pred.predicted_choice, "");
    assert_eq!(pred.confidence, ratio(0, 1));
}

#[test]
fn accuracy_exact_values() {
    let mut room = McpRoom::wrap("e");
    for (i, (p, o)) in [("a", "a"), ("b", "a"), ("c", "c"), ("d", "d")].iter().enumerate() {
        room.prediction_db.push(tick("s", &["a"], p, i as u64, 1));
        room.perception_db.push(tick("s", &["a"], o, i as u64, 1));
    }
    room.perception_db.push(tick("s", &["a"], "zz", 9, 1));
    assert_eq!(room.prediction_accuracy(), ratio(3, 4));
}

#[test]
fn accuracy_with_one_empty_log() {
    let mut room = McpRoom::wrap("e");
    room.prediction_db.push(tick("s", &["a"], "a", 1, 1));
    assert_eq!(room.prediction_accuracy(), ratio(0, 1));
}

#[test]
fn gc_exact_report() {
    let mut ticks = Vec::new();
    for i in 0..8 {
        ticks.push(tick("big", &["a"], "a", 100 + i * 10, 1));
    }
    ticks.push(tick("small", &["a"], "a", 50, 1));
    let mut room = room_with(ticks);
    let report = room.gc(30);
    assert_eq!(report.observations_before, 9);
    assert_eq!(report.observations_after, 4);
    assert_eq!(report.pruned, 5);
    assert_eq!(report.merged, 2);
    assert_eq!(report.information_preserved, ratio(4, 9));
    let kept: Vec<u64> = room.perception_db.iter().map(|t| t.timestamp).collect();
    assert_eq!(kept, vec![140, 150, 160, 170]);
}

#[test]
fn gc_twice_prunes_nothing_more() {
    let mut ticks = Vec::new();
    for i in 0..12 {
        ticks.push(tick("s", &["a"], "a", (i * 37) % 101, 1));
    }
    let mut room = room_with(ticks);
    let first = room.gc(40);
    let second = room.gc(40);
    assert!(first.observations_after > 0);
    assert_eq!(second.pruned, 0);
    assert_eq!(second.observations_after, first.observations_after);
}

#[test]
fn gc_of_empty_room() {
    let mut room = McpRoom::wrap("e");
    let report = room.gc(0);
    assert_eq!(report.observations_before, 0);
    assert_eq!(report.pruned, 0);
    assert_eq!(report.information_preserved, ratio(1, 1));
}

#[test]
fn readiness_exact_value() {
    let room = room_with(vec![tick("s", &["a"], "a", 1, 1), tick("s", &["a"], "a", 2, 1)]);
    // 0.3 * 2/100 + 0.4 * 1/1 + 0.3 * 2/10 = 0.466
    assert_eq!(room.distillation_readiness(), ratio(466, 1000));
}

#[test]
fn readiness_saturates_at_one() {
    let mut ticks = Vec::new();
    for i in 0..120 {
        ticks.push(tick("s", &["a", "b"], "a", i, 1));
    }
    let room = room_with(ticks);
    let r = room.distillation_readiness();
    assert_eq!(r.numerator, r.denominator);
}

#[test]
fn pipeline_reports_each_stage() {
    let mut p = DistillationPipeline::start("e");
    p.room.intercept_call(tick("s", &["a"], "a", 1, 1));
    p.room.intercept_call(tick("s", &["a"], "a", 2, 1));
    match p.advance() {
        PipelineResult::Observing { ticks_collected } => assert_eq!(ticks_collected, 2),
        other => panic!("unexpected {:?}", other),
    }
    match p.advance() {
        PipelineResult::Analyzing { decision_points_found } => assert_eq!(decision_points_found, 1),
        other => panic!("unexpected {:?}", other),
    }
    match p.advance() {
        PipelineResult::Training { experts_trained } => assert_eq!(experts_trained, 1),
        other => panic!("unexpected {:?}", other),
    }
    match p.advance() {
        PipelineResult::Validating { accuracy } => assert_eq!(accuracy, ratio(466, 1000)),
        other => panic!("unexpected {:?}", other),
    }
    match p.advance() {
        PipelineResult::Deploying { experts_deployed } => assert_eq!(experts_deployed, 1),
        other => panic!("unexpected {:?}", other),
    }
    for _ in 0..3 {
        match p.advance() {
            PipelineResult::Monitoring { drift_detected } => assert!(!drift_detected),
            other => panic!("unexpected {:?}", other),
        }
        assert_eq!(p.stage, PipelineStage::Monitoring);
    }
}

#[test]
fn moe_config_routes_distillable_steps() {
    let mut p = DistillationPipeline::start("e");
    p.room.intercept_call(tick("once", &["a"], "a", 1, 1));
    p.room.intercept_call(tick("twice", &["a", "b"], "b", 2, 1));
    p.room.intercept_call(tick("twice", &["a", "b"], "b", 3, 1));
    p.room.intercept_call(tick("also", &["a"], "a", 4, 1));
    p.room.intercept_call(tick("also", &["a"], "c", 5, 1));
    let config = p.moe_config();
    assert_eq!(config.routing, vec![("twice".to_string(), 1), ("also".to_string(), 2)]);
    assert_eq!(config.experts.len(), 2);
    assert_eq!(config.experts[0].step, "twice");
    assert_eq!(config.experts[0].model_size, 1_000_000);
    assert_eq!(config.experts[0].accuracy, ratio(2, 2));
    assert_eq!(config.experts[1].accuracy, ratio(1, 2));
    assert_eq!(config.experts[1].expert_type, ExpertType::Generator);
    assert!(config.fallback_to_original);
    assert_eq!(config.experts.len(), p.room.count_experts());
}

#[test]
fn backtest_reports_first_mismatch() {
    let mut p = DistillationPipeline::start("e");
    p.room.intercept_call(tick("s", &["a"], "a", 1, 1));
    let r = p.backtest(&["first input".to_string(), "second".to_string()]);
    assert_eq!(r.total_tests, 2);
    assert_eq!(r.matches, 0);
    assert_eq!(r.accuracy, ratio(0, 2));
    assert_eq!(r.avg_latency_improvement, ratio(9, 10));
    assert_eq!(r.worst_case_error, "mismatch for input: first input");
}

#[test]
fn backtest_quotes_at_most_fifty_bytes() {
    let mut p = DistillationPipeline::start("e");
    p.room.intercept_call(tick("s", &["a"], "a", 1, 1));
    let long = "x".repeat(80);
    let r = p.backtest(&[long]);
    assert_eq!(r.worst_case_error, format!("mismatch for input: {}", "x".repeat(50)));
}

#[test]
fn backtest_matches_when_a_choice_was_empty() {
    let mut p = DistillationPipeline::start("e");
    p.room.intercept_call(tick("s", &["a"], "a", 1, 1));
    p.room.intercept_call(tick("s", &["a"], "", 2, 1));
    let r = p.backtest(&["a".to_string(), "b".to_string(), "c".to_string()]);
    assert_eq!(r.matches, 3);
    assert_eq!(r.accuracy, ratio(3, 3));
    assert_eq!(r.worst_case_error, "");
}

#[test]
fn backtest_without_data() {
    let p = DistillationPipeline::start("e");
    let r = p.backtest(&["a".to_string()]);
    assert_eq!(r.total_tests, 1);
    assert_eq!(r.matches, 0);
    assert_eq!(r.accuracy, ratio(0, 1));
    assert_eq!(r.avg_latency_improvement, ratio(0, 1));
    assert_eq!(r.worst_case_error, "");
}

#[test]
fn gc_with_larger_age_keeps_more() {
    let mut ticks = Vec::new();
    for i in 0..10 {
        ticks.push(tick("s", &["a"], "a", i * 10, 1));
    }
    let mut small = room_with(ticks.clone());
    let mut large = room_with(ticks);
    let rs = small.gc(25);
    let rl = large.gc(55);
    assert_eq!(rs.observations_after, 3);
    assert_eq!(rl.observations_after, 6);
    assert!(rs.pruned >= rl.pruned);
    assert_eq!(rs.information_preserved, ratio(3, 10));
    assert_eq!(rl.information_preserved, ratio(6, 10));
    let kept_small: Vec<u64> = small.perception_db.iter().map(|t| t.timestamp).collect();
    let kept_large: Vec<u64> = large.perception_db.iter().map(|t| t.timestamp).collect();
    assert!(kept_small.iter().all(|ts| kept_large.contains(ts)));
}

#[test]
fn decision_points_ignore_tick_order() {
    let ticks = vec![
        tick("s", &["a", "b"], "a", 1, 1),
        tick("t", &["a"], "x", 2, 1),
        tick("s", &["a", "b", "c"], "b", 3, 1),
        tick("s", &["a"], "b", 4, 1),
        tick("t", &["a"], "y", 5, 1),
        tick("s", &["a", "b"], "c", 6, 1),
    ];
    let mut reversed = ticks.clone();
    reversed.reverse();
    let forward = room_with(ticks).find_distillable_steps();
    let backward = room_with(reversed).find_distillable_steps();
    assert_eq!(forward.len(), backward.len());
    for dp in &forward {
        let other = backward.iter().find(|d| d.step == dp.step).unwrap();
        assert_eq!(dp.average_options, other.average_options);
        assert_eq!(dp.expert_type, other.expert_type);
        assert_eq!(dp.distillable, other.distillable);
        let f1: Vec<Ratio> = dp.top_choices.iter().map(|x| x.1).collect();
        let f2: Vec<Ratio> = other.top_choices.iter().map(|x| x.1).collect();
        assert_eq!(f1, f2);
    }
}
