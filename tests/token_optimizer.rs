use std::sync::Arc;

use agenthub_runtime::json::{parse_json_text, to_json_text, Json};
use agenthub_runtime::token_optimizer::{
    estimate_tokens, DeltaContextEngine, DowngradeSuggestion, PredictiveEstimator,
    SemanticCompressor, StaticPromptCache, TokenBreakdown, TokenTracker, ToolSchemaCache,
};

fn json(text: &str) -> Json {
    parse_json_text(text).ok().expect("valid JSON")
}

fn text_of(v: &Json) -> String {
    to_json_text(v)
}

#[test]
fn prompt_cache_deduplication() {
    let mut cache = StaticPromptCache::new();
    let a = cache.get_or_compile("sys", "You are an assistant.");
    let b = cache.get_or_compile("sys", "ignored");
    assert!(Arc::ptr_eq(&a, &b));
}

#[test]
fn delta_extracts_fields() {
    let mut engine = DeltaContextEngine::new();
    engine.store("n1", json(r#"{"a": 1, "b": 2, "c": 3}"#));
    let delta = engine.compute_delta(&[("n1".into(), vec!["a".into()])]);
    let n1 = delta.get("n1").expect("n1 should exist");
    assert!(n1.get("a").is_some());
    assert!(n1.get("b").is_none());
}

#[test]
fn compressor_truncates() {
    let c = SemanticCompressor::new(5);
    let v = json(r#"{"text": "hello world"}"#);
    let compressed = c.compress(&v);
    let text = compressed.get("text").and_then(|v| v.as_str()).unwrap_or("");
    assert!(text.len() <= 5);
}

#[test]
fn estimator_within_budget() {
    let est = PredictiveEstimator::estimate_call(100, 50, 30, 20, 200);
    assert_eq!(est.total, 400);
    let sug = PredictiveEstimator::suggest_downgrades(&est, 500);
    assert!(sug.is_empty());
}

#[test]
fn estimator_over_budget() {
    let est = PredictiveEstimator::estimate_call(100, 50, 200, 50, 500);
    let sug = PredictiveEstimator::suggest_downgrades(&est, 400);
    assert!(!sug.is_empty());
}

#[test]
fn tracker_aggregates() {
    let mut t = TokenTracker::new();
    // Costs are kept in billionths of a dollar: 0.001 and 0.0001 dollars.
    t.record(TokenBreakdown {
        skill_id: "s1".into(),
        model: "gpt-4o".into(),
        total_tokens: 100,
        cost: 1_000_000,
        ..Default::default()
    });
    t.record(TokenBreakdown {
        skill_id: "s2".into(),
        model: "gpt-4o-mini".into(),
        total_tokens: 50,
        cost: 100_000,
        ..Default::default()
    });
    assert_eq!(t.total_tokens(), 150);
    assert!((t.total_cost() as f64 / 1e9 - 0.0011).abs() < 1e-9);
}

#[test]
fn estimate_tokens_is_a_quarter_of_the_bytes() {
    assert_eq!(estimate_tokens(""), 0);
    assert_eq!(estimate_tokens("abc"), 0);
    assert_eq!(estimate_tokens("abcd"), 1);
    assert_eq!(estimate_tokens(&"x".repeat(4001)), 1000);
}

#[test]
fn downgrade_suggestions_in_order() {
    // total 900, budget 400: over = 500.
    let est = PredictiveEstimator::estimate_call(100, 50, 200, 50, 500);
    assert_eq!(est.total, 900);
    let sug = PredictiveEstimator::suggest_downgrades(&est, 400);
    // memory 200 > 0: trim to 200 - 500 saturated = 0; context 50 is not above 250.
    assert_eq!(sug, vec![DowngradeSuggestion::TrimMemory { target: 0 }, DowngradeSuggestion::DowngradeModel]);

    // total 1000, budget 900: over = 100; memory 0; context 300 > 50.
    let est2 = PredictiveEstimator::estimate_call(100, 300, 0, 100, 500);
    let sug2 = PredictiveEstimator::suggest_downgrades(&est2, 900);
    assert_eq!(sug2, vec![DowngradeSuggestion::ReduceContext { target: 250 }, DowngradeSuggestion::DowngradeModel]);

    // Exactly at the budget: nothing to do.
    assert!(PredictiveEstimator::suggest_downgrades(&est2, 1000).is_empty());
}

#[test]
fn tracker_report_lines() {
    let mut t = TokenTracker::new();
    assert_eq!(t.report(), "Total cost: $0.000000 | Total tokens: 0\n");
    t.record(TokenBreakdown {
        skill_id: "s1".into(),
        model: "gpt-4o".into(),
        prompt_tokens: 1,
        context_tokens: 2,
        memory_tokens: 3,
        schema_tokens: 4,
        response_tokens: 5,
        total_tokens: 80,
        cost: 400_000,
    });
    assert_eq!(
        t.report(),
        "Total cost: $0.000400 | Total tokens: 80\n  [s1] model=gpt-4o prompt=1 ctx=2 mem=3 schema=4 resp=5 total=80 cost=$0.000400\n"
    );
    assert_eq!(t.records().len(), 1);
    assert_eq!(t.total_cost(), 400_000);
}

#[test]
fn report_sums_over_many_records() {
    let mut t = TokenTracker::new();
    let mut tokens: u128 = 0;
    let mut cost: u128 = 0;
    for i in 0..25u32 {
        t.record(TokenBreakdown {
            skill_id: format!("s{i}"),
            total_tokens: i * 7 + 1,
            cost: u64::from(i) * 12_345,
            ..Default::default()
        });
        tokens += u128::from(i * 7 + 1);
        cost += u128::from(i) * 12_345;
    }
    assert_eq!(t.total_tokens(), tokens);
    assert_eq!(t.total_cost(), cost);
}

#[test]
fn schema_cache_keeps_first_text() {
    let mut cache = ToolSchemaCache::new();
    let h = ToolSchemaCache::schema_hash("search");
    assert_eq!(h, ToolSchemaCache::schema_hash("search"));
    let a = cache.get_or_insert(h, "{\"type\":\"object\"}");
    let b = cache.get_or_insert(h, "other");
    assert_eq!(a.as_str(), "{\"type\":\"object\"}");
    assert!(Arc::ptr_eq(&a, &b));
}

#[test]
fn delta_whole_output_and_missing_parts() {
    let mut engine = DeltaContextEngine::new();
    engine.store("n1", json(r#"{"a": 1, "b": [true, null]}"#));
    engine.store("n2", json(r#""plain""#));
    let delta = engine.compute_delta(&[
        ("n1".into(), vec![]),
        ("n2".into(), vec!["x".into()]),
        ("gone".into(), vec![]),
    ]);
    assert_eq!(text_of(&delta), r#"{"n1":{"a":1,"b":[true,null]}}"#);
    let none = engine.compute_delta(&[("n1".into(), vec!["zzz".into()])]);
    assert_eq!(text_of(&none), r#"{"n1":{}}"#);
    // A later store replaces the output.
    engine.store("n1", json(r#"{"a": 5}"#));
    let again = engine.compute_delta(&[("n1".into(), vec!["a".into()])]);
    assert_eq!(text_of(&again), r#"{"n1":{"a":5}}"#);
}

#[test]
fn compressor_renames_and_keeps_utf8() {
    let mut c = SemanticCompressor::new(3);
    c.add_key_mapping("summary", "s");
    let v = json(r#"{"summary": "ééé", "n": 12345, "list": ["abcdef", {"summary": "xy"}]}"#);
    let out = c.compress(&v);
    assert_eq!(text_of(&out), r#"{"list":["abc",{"s":"xy"}],"n":12345,"s":"é"}"#);
    // Compressing again changes nothing.
    assert_eq!(text_of(&c.compress(&out)), text_of(&out));
}

#[test]
fn compressor_truncation_scenario() {
    let c = SemanticCompressor::new(5);
    let out = c.compress(&json(r#"{"text": "hello world"}"#));
    assert_eq!(out.get("text").and_then(|v| v.as_str()), Some("hello"));
}
