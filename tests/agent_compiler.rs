use std::sync::Arc;

use agenthub_runtime::agent_compiler::{AgentCompiler, CompileError, SkillDep, UserAgentConfig};
use agenthub_runtime::agent_template::{AgentTemplate, TemplateRegistry};
use agenthub_runtime::json::{parse_json_text, Json};
use agenthub_runtime::memory::MemoryTier;
use agenthub_runtime::skill::{JsonSchema, ResponseMode, SkillDefinition, SkillExecutionMode};

fn json(text: &str) -> Json {
    parse_json_text(text).ok().expect("valid JSON")
}

fn setup() -> (TemplateRegistry, Vec<SkillDefinition>) {
    let mut reg = TemplateRegistry::new();
    reg.register(AgentTemplate {
        id: "research".into(),
        allowed_skills: vec!["search".into(), "summarize".into()],
        default_memory_tier: MemoryTier::Delta,
        response_mode: ResponseMode::StrictJson,
        max_budget: 5000,
        system_instruction: Arc::new("Research agent.".to_string()),
        output_schema: json(r#"{"type": "object"}"#),
    });

    let skills = vec![
        SkillDefinition {
            id: "search".into(),
            input_schema: JsonSchema::new(json(r#"{"type":"object","required":["query"],"properties":{"query":{"type":"string"}}}"#)),
            output_schema: JsonSchema::new(json(r#"{"type":"object","required":["results"],"properties":{"results":{"type":"array"}}}"#)),
            execution_mode: SkillExecutionMode::LLM,
            max_output_tokens: 500,
            compact_keys: None,
        },
        SkillDefinition {
            id: "summarize".into(),
            input_schema: JsonSchema::new(json(r#"{"type":"object","required":["text"],"properties":{"text":{"type":"string"}}}"#)),
            output_schema: JsonSchema::new(json(r#"{"type":"object","required":["summary"],"properties":{"summary":{"type":"string"}}}"#)),
            execution_mode: SkillExecutionMode::LLM,
            max_output_tokens: 300,
            compact_keys: None,
        },
    ];

    (reg, skills)
}

#[test]
fn compiles_valid_config() {
    let (reg, skills) = setup();
    let config = UserAgentConfig {
        name: "my-agent".into(),
        base_template: "research".into(),
        selected_skills: vec!["search".into(), "summarize".into()],
        memory_tier_override: None,
        budget_limit: None,
        skill_dependencies: vec![SkillDep {
            skill_id: "summarize".into(),
            depends_on: "search".into(),
            fields: vec!["results".into()],
        }],
    };
    let agent = AgentCompiler::compile(&config, &reg, &skills);
    assert!(agent.is_ok());
    let a = agent.ok().expect("should compile");
    assert_eq!(a.budget, 5000);
    assert_eq!(a.memory_tier, MemoryTier::Delta);
    assert_eq!(a.graph.nodes.len(), 2);
    assert_eq!(a.graph.nodes[1].dependencies[0].source_skill, "search");
    assert_eq!(a.skills[0].id, "search");
    assert_eq!(*a.system_instruction, "Research agent.");
}

#[test]
fn rejects_unknown_template() {
    let (reg, skills) = setup();
    let config = UserAgentConfig {
        name: "bad".into(),
        base_template: "nonexistent".into(),
        selected_skills: vec![],
        memory_tier_override: None,
        budget_limit: None,
        skill_dependencies: vec![],
    };
    assert!(AgentCompiler::compile(&config, &reg, &skills).is_err());
}

#[test]
fn rejects_disallowed_skill() {
    let (reg, skills) = setup();
    let config = UserAgentConfig {
        name: "bad".into(),
        base_template: "research".into(),
        selected_skills: vec!["delete".into()],
        memory_tier_override: None,
        budget_limit: None,
        skill_dependencies: vec![],
    };
    assert!(AgentCompiler::compile(&config, &reg, &skills).is_err());
}

#[test]
fn rejects_over_budget() {
    let (reg, skills) = setup();
    let config = UserAgentConfig {
        name: "expensive".into(),
        base_template: "research".into(),
        selected_skills: vec!["search".into()],
        memory_tier_override: None,
        budget_limit: Some(99999),
        skill_dependencies: vec![],
    };
    assert!(AgentCompiler::compile(&config, &reg, &skills).is_err());
    match AgentCompiler::compile(&config, &reg, &skills) {
        Err(CompileError::BudgetExceeded { requested, max }) => {
            assert_eq!(requested, 99999);
            assert_eq!(max, 5000);
        }
        _ => panic!("expected a budget error"),
    }
}

fn config(selected: &[&str], deps: &[(&str, &str)]) -> UserAgentConfig {
    UserAgentConfig {
        name: "c".into(),
        base_template: "research".into(),
        selected_skills: selected.iter().map(|s| s.to_string()).collect(),
        memory_tier_override: Some(MemoryTier::Full),
        budget_limit: Some(1200),
        skill_dependencies: deps
            .iter()
            .map(|(s, d)| SkillDep { skill_id: s.to_string(), depends_on: d.to_string(), fields: vec![] })
            .collect(),
    }
}

#[test]
fn compile_error_kinds() {
    let (reg, skills) = setup();
    match AgentCompiler::compile(&config(&["search", "delete"], &[]), &reg, &skills) {
        Err(CompileError::SkillNotAllowed { skill, template }) => {
            assert_eq!(skill, "delete");
            assert_eq!(template, "research");
        }
        _ => panic!("expected a disallowed skill"),
    }
    match AgentCompiler::compile(&config(&["summarize"], &[]), &reg, &skills[..1]) {
        Err(CompileError::UnknownSkill(s)) => assert_eq!(s, "summarize"),
        _ => panic!("expected an unknown skill"),
    }
    match AgentCompiler::compile(&config(&["summarize"], &[("summarize", "search")]), &reg, &skills) {
        Err(CompileError::GraphError(m)) => {
            assert_eq!(m, "missing dependency: skill 'summarize' depends on 'search'")
        }
        _ => panic!("expected a graph error"),
    }
    match AgentCompiler::compile(
        &config(&["search", "summarize"], &[("summarize", "search"), ("search", "summarize")]),
        &reg,
        &skills,
    ) {
        Err(CompileError::GraphError(m)) => assert_eq!(m, "cycle detected in skill graph"),
        _ => panic!("expected a cycle"),
    }
    let ok = AgentCompiler::compile(&config(&["search"], &[]), &reg, &skills).ok().expect("compiles");
    assert_eq!(ok.budget, 1200);
    assert_eq!(ok.memory_tier, MemoryTier::Full);
    assert_eq!(ok.template_id, "research");
}

#[test]
fn compile_error_messages() {
    assert_eq!(CompileError::TemplateNotFound("t".into()).message(), "template not found: t");
    assert_eq!(
        CompileError::SkillNotAllowed { skill: "s".into(), template: "t".into() }.message(),
        "skill not allowed by template: s not in t"
    );
    assert_eq!(CompileError::UnknownSkill("s".into()).message(), "unknown skill: s");
    assert_eq!(
        CompileError::BudgetExceeded { requested: 99999, max: 5000 }.message(),
        "budget exceeds template max: 99999 > 5000"
    );
    assert_eq!(CompileError::GraphError("m".into()).message(), "graph validation failed: m");
}
