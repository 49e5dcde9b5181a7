use std::sync::Arc;

use agenthub_runtime::agent_compiler::{AgentCompiler, CompiledAgent, SkillDep, UserAgentConfig};
use agenthub_runtime::agent_template::{AgentTemplate, TemplateRegistry};
use agenthub_runtime::execution_engine::{
    budget_gate, choose_model, flatten_delta, select_model, skill_input, ExecutionEngine, ExecutionError,
};
use agenthub_runtime::json::{parse_json_text, to_json_text, Json};
use agenthub_runtime::memory::{MemoryEntry, MemoryManager, MemoryTier};
use agenthub_runtime::provider::{LLMRequest, ModelProvider, ModelResponse, ProviderError, TokenUsage};
use agenthub_runtime::skill::{JsonSchema, ResponseMode, SkillDefinition, SkillExecutionMode};
use agenthub_runtime::skill_executor::SkillExecutor;
use agenthub_runtime::token_optimizer::DeltaContextEngine;

fn json(text: &str) -> Json {
    parse_json_text(text).ok().expect("valid JSON")
}

struct MockProvider;

impl ModelProvider for MockProvider {
    fn call_model(&self, req: LLMRequest) -> Result<ModelResponse, ProviderError> {
        let content = if req.user_content.contains("query") || req.user_content.contains("input") {
            r#"{"results":["result1","result2"]}"#
        } else {
            r#"{"summary":"compressed summary"}"#
        };
        Ok(ModelResponse {
            content: content.to_owned(),
            usage: TokenUsage {
                prompt_tokens: 50,
                completion_tokens: 30,
                total_tokens: 80,
            },
            model: req.model,
        })
    }
}

fn setup_compiled_agent() -> (CompiledAgent, MemoryManager) {
    let mut reg = TemplateRegistry::new();
    reg.register(AgentTemplate {
        id: "research".into(),
        allowed_skills: vec!["search".into(), "summarize".into()],
        default_memory_tier: MemoryTier::Delta,
        response_mode: ResponseMode::StrictJson,
        max_budget: 5000,
        system_instruction: Arc::new("Research agent.".to_string()),
        output_schema: json(r#"{"type": "object"}"#),
    });

    let skills = vec![
        SkillDefinition {
            id: "search".into(),
            input_schema: JsonSchema::new(json(r#"{"type":"object","properties":{"input":{"type":"string"},"query":{"type":"string"}}}"#)),
            output_schema: JsonSchema::new(json(r#"{"type":"object","required":["results"],"properties":{"results":{"type":"array"}}}"#)),
            execution_mode: SkillExecutionMode::LLM,
            max_output_tokens: 500,
            compact_keys: None,
        },
        SkillDefinition {
            id: "summarize".into(),
            input_schema: JsonSchema::new(json(r#"{"type":"object","properties":{"results":{"type":"array"},"text":{"type":"string"}}}"#)),
            output_schema: JsonSchema::new(json(r#"{"type":"object","required":["summary"],"properties":{"summary":{"type":"string"}}}"#)),
            execution_mode: SkillExecutionMode::LLM,
            max_output_tokens: 300,
            compact_keys: None,
        },
    ];

    let config = UserAgentConfig {
        name: "test-agent".into(),
        base_template: "research".into(),
        selected_skills: vec!["search".into(), "summarize".into()],
        memory_tier_override: None,
        budget_limit: None,
        skill_dependencies: vec![SkillDep {
            skill_id: "summarize".into(),
            depends_on: "search".into(),
            fields: vec!["results".into()],
        }],
    };

    let agent = AgentCompiler::compile(&config, &reg, &skills).ok().expect("should compile");

    let mut mem = MemoryManager::new();
    mem.add(MemoryEntry {
        key: "context".into(),
        value: "previous research data".into(),
        tier: MemoryTier::Delta,
    });

    (agent, mem)
}

#[test]
fn full_execution() {
    let (agent, mem) = setup_compiled_agent();
    let executor = SkillExecutor::new();
    let mut engine = ExecutionEngine::new(executor);
    let provider = MockProvider;

    let result = engine.execute(&agent, &mem, &provider);
    assert!(result.is_ok());
    let r = result.ok().expect("should succeed");
    assert!(r.outputs.contains_key("search"));
    assert!(r.outputs.contains_key("summarize"));
    assert!(r.total_tokens > 0);
    assert_eq!(r.total_tokens, 160);
    assert_eq!(engine.tracker().records().len(), 2);
    assert_eq!(engine.tracker().total_tokens(), 160);
    // Both calls fit well under half the budget, so the larger model is used.
    assert_eq!(engine.tracker().records()[0].model, "gpt-4o");
    assert_eq!(r.total_cost, 2 * 80 * 5_000);
    assert!(r.report.starts_with("Total cost: $0.000800 | Total tokens: 160\n"));
    let summarize = r.outputs.get("summarize").map(to_json_text);
    assert_eq!(summarize, Some(r#"{"summary":"compressed summary"}"#.to_string()));
}

#[test]
fn budget_exhaustion() {
    let mut reg = TemplateRegistry::new();
    reg.register(AgentTemplate {
        id: "tiny".into(),
        allowed_skills: vec!["search".into()],
        default_memory_tier: MemoryTier::NoMemory,
        response_mode: ResponseMode::StrictJson,
        max_budget: 10,
        system_instruction: Arc::new("Tiny.".to_string()),
        output_schema: json(r#"{"type": "object"}"#),
    });

    let skills = vec![SkillDefinition {
        id: "search".into(),
        input_schema: JsonSchema::new(json(r#"{"type":"object","properties":{"input":{"type":"string"}}}"#)),
        output_schema: JsonSchema::new(json(r#"{"type":"object","required":["results"],"properties":{"results":{"type":"array"}}}"#)),
        execution_mode: SkillExecutionMode::LLM,
        max_output_tokens: 500,
        compact_keys: None,
    }];

    let config = UserAgentConfig {
        name: "tiny-agent".into(),
        base_template: "tiny".into(),
        selected_skills: vec!["search".into()],
        memory_tier_override: None,
        budget_limit: None,
        skill_dependencies: vec![],
    };

    let agent = AgentCompiler::compile(&config, &reg, &skills).ok().expect("should compile");
    let mem = MemoryManager::new();
    let executor = SkillExecutor::new();
    let mut engine = ExecutionEngine::new(executor);
    let provider = MockProvider;

    let result = engine.execute(&agent, &mem, &provider);
    assert!(result.is_err());
    match result {
        Err(ExecutionError::BudgetExhausted { used, limit }) => {
            assert_eq!(used, 0);
            assert_eq!(limit, 10);
        }
        _ => panic!("expected budget exhaustion"),
    }
    assert_eq!(engine.tracker().records().len(), 0);
}

#[test]
fn model_choice_by_ratio() {
    assert_eq!(select_model(1000, 500), "gpt-4o");
    assert_eq!(select_model(1000, 501), "gpt-4o-mini");
    assert_eq!(select_model(0, 0), "gpt-4o");
    assert_eq!(select_model(0, 1), "gpt-4o-mini");
}

#[test]
fn delta_flattening() {
    let d = json(r#"{"a": {"x": 1, "y": 2}, "b": {"y": 3}}"#);
    assert_eq!(to_json_text(&flatten_delta(&d)), r#"{"x":1,"y":3}"#);
    let whole = json(r#"{"a": [1], "b": {}}"#);
    assert_eq!(to_json_text(&flatten_delta(&whole)), r#"{"a":[1],"b":{}}"#);
}

struct CostlyProvider;

impl ModelProvider for CostlyProvider {
    fn call_model(&self, req: LLMRequest) -> Result<ModelResponse, ProviderError> {
        let _ = req;
        Ok(ModelResponse {
            content: r#"{"results":["r"]}"#.to_owned(),
            usage: TokenUsage { prompt_tokens: 150, completion_tokens: 50, total_tokens: 200 },
            model: Arc::new("mock".to_string()),
        })
    }
}

#[test]
fn budget_runs_out_after_the_first_skill() {
    let mut reg = TemplateRegistry::new();
    reg.register(AgentTemplate {
        id: "research".into(),
        allowed_skills: vec!["search".into(), "summarize".into()],
        default_memory_tier: MemoryTier::Delta,
        response_mode: ResponseMode::StrictJson,
        max_budget: 5000,
        system_instruction: Arc::new("Research agent.".to_string()),
        output_schema: json(r#"{"type": "object"}"#),
    });
    let (base, mem) = setup_compiled_agent();
    let skills: Vec<SkillDefinition> = base.skills.iter().map(|s| s.copy_definition()).collect();
    let config = UserAgentConfig {
        name: "tight".into(),
        base_template: "research".into(),
        selected_skills: vec!["search".into(), "summarize".into()],
        memory_tier_override: None,
        budget_limit: Some(430),
        skill_dependencies: vec![SkillDep {
            skill_id: "summarize".into(),
            depends_on: "search".into(),
            fields: vec!["results".into()],
        }],
    };
    let agent = AgentCompiler::compile(&config, &reg, &skills).ok().expect("compiles");
    let mut engine = ExecutionEngine::new(SkillExecutor::new());
    match engine.execute(&agent, &mem, &CostlyProvider) {
        Err(ExecutionError::BudgetExhausted { used, limit }) => {
            assert_eq!(used, 200);
            assert_eq!(limit, 430);
        }
        _ => panic!("expected the budget to run out"),
    }
    // The first call stays on record.
    assert_eq!(engine.tracker().records().len(), 1);
    assert_eq!(engine.tracker().total_tokens(), 200);
}

#[test]
fn a_reused_engine_reports_only_its_last_run() {
    let (agent, mem) = setup_compiled_agent();
    let mut engine = ExecutionEngine::new(SkillExecutor::new());
    let first = engine.execute(&agent, &mem, &MockProvider).ok().expect("first run");
    assert_eq!(first.total_tokens, 160);
    let second = engine.execute(&agent, &mem, &MockProvider).ok().expect("second run");
    // The second run is answered from the input cache: nothing is spent.
    assert_eq!(second.total_tokens, 0);
    assert_eq!(engine.tracker().records().len(), 2);
    assert!(second.report.starts_with("Total cost: $0.000000 | Total tokens: 0\n"));
}

#[test]
fn budget_input_and_model_steps() {
    assert!(budget_gate(12, 10, 10).is_ok());
    match budget_gate(13, 10, 10) {
        Err(ExecutionError::BudgetExhausted { used, limit }) => {
            assert_eq!(used, 0);
            assert_eq!(limit, 10);
        }
        _ => panic!("expected a refusal"),
    }
    match budget_gate(600, 400, 1000) {
        Err(e @ ExecutionError::BudgetExhausted { .. }) => {
            assert_eq!(e.message(), "budget exhausted: used 600, limit 1000")
        }
        _ => panic!("expected a refusal"),
    }
    assert!(budget_gate(u64::from(u32::MAX) + 1, u32::MAX, u32::MAX).is_err());
    assert_eq!(to_json_text(&skill_input(&json("{}"))), r#"{"input":"start"}"#);
    assert_eq!(to_json_text(&skill_input(&json(r#"{"s":{"a":1}}"#))), r#"{"a":1}"#);
    let (agent, _) = setup_compiled_agent();
    assert_eq!(choose_model(&agent.skills[0], 1000, 600), "gpt-4o-mini");
    let mut det = agent.skills[0].copy_definition();
    det.execution_mode = SkillExecutionMode::Deterministic;
    assert_eq!(choose_model(&det, 1000, 600), "local");
}

#[test]
fn graph_without_definitions_runs_empty() {
    let (mut agent, mem) = setup_compiled_agent();
    agent.skills.clear();
    let mut engine = ExecutionEngine::new(SkillExecutor::new());
    let r = engine.execute(&agent, &mem, &MockProvider).ok().expect("nothing to run");
    assert!(r.outputs.is_empty());
    assert_eq!(r.total_tokens, 0);
    assert_eq!(
        ExecutionError::SkillError("x".into()).message(),
        "skill execution failed: x"
    );
}

#[test]
fn flattening_merges_sources_in_ascending_id_order() {
    let mut engine = DeltaContextEngine::new();
    engine.store("a", json(r#"{"x": 1}"#));
    engine.store("b", json(r#"{"x": 2, "y": 3}"#));
    // Dependencies listed as b then a: the delta still holds a before b,
    // so b's "x" wins.
    let delta = engine.compute_delta(&[("b".into(), vec![]), ("a".into(), vec![])]);
    assert_eq!(to_json_text(&flatten_delta(&delta)), r#"{"x":2,"y":3}"#);
}
