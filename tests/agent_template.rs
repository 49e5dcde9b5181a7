use std::sync::Arc;

use agenthub_runtime::agent_template::{AgentTemplate, TemplateRegistry};
use agenthub_runtime::json::Json;
use agenthub_runtime::memory::MemoryTier;
use agenthub_runtime::skill::ResponseMode;

fn sample_template() -> AgentTemplate {
    AgentTemplate {
        id: "research".into(),
        allowed_skills: vec!["search".into(), "summarize".into()],
        default_memory_tier: MemoryTier::Delta,
        response_mode: ResponseMode::StrictJson,
        max_budget: 5000,
        system_instruction: Arc::new("You are a research agent.".to_string()),
        output_schema: Json::new_object(),
    }
}

#[test]
fn register_and_get() {
    let mut reg = TemplateRegistry::new();
    reg.register(sample_template());
    assert!(reg.get("research").is_some());
    assert!(reg.get("unknown").is_none());
}

#[test]
fn skill_allowed_check() {
    let mut reg = TemplateRegistry::new();
    reg.register(sample_template());
    assert!(reg.skill_allowed("research", "search"));
    assert!(!reg.skill_allowed("research", "delete"));
}

#[test]
fn last_registration_wins() {
    let mut reg = TemplateRegistry::new();
    reg.register(sample_template());
    let mut other = sample_template();
    other.max_budget = 10;
    other.allowed_skills = vec!["delete".into()];
    reg.register(other);
    let mut writer = sample_template();
    writer.id = "writer".into();
    reg.register(writer);
    assert_eq!(reg.get("research").map(|t| t.max_budget), Some(10));
    assert!(reg.skill_allowed("research", "delete"));
    assert!(!reg.skill_allowed("research", "search"));
    assert!(!reg.skill_allowed("nobody", "search"));
    let mut ids = reg.list_ids();
    ids.sort();
    assert_eq!(ids, vec!["research".to_string(), "writer".to_string()]);
}
