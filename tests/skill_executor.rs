use std::sync::Arc;

use agenthub_runtime::json::{parse_json_text, to_json_text, Json};
use agenthub_runtime::provider::{LLMRequest, ModelProvider, ModelResponse, ProviderError, TokenUsage};
use agenthub_runtime::skill::{JsonSchema, ResponseMode, SkillDefinition, SkillExecutionMode};
use agenthub_runtime::skill_executor::{
    finish_output, interpret_response, DeterministicHandler, SkillExecError, SkillExecutor,
    SkillInputCache,
};

fn json(text: &str) -> Json {
    parse_json_text(text).ok().expect("valid JSON")
}

struct MockProvider {
    response: String,
}

impl ModelProvider for MockProvider {
    fn call_model(&self, _req: LLMRequest) -> Result<ModelResponse, ProviderError> {
        Ok(ModelResponse {
            content: self.response.clone(),
            usage: TokenUsage {
                prompt_tokens: 10,
                completion_tokens: 20,
                total_tokens: 30,
            },
            model: Arc::new("mock".to_string()),
        })
    }
}

struct WordCount;

impl DeterministicHandler for WordCount {
    fn run(&self, input: &Json) -> Result<Json, SkillExecError> {
        let text = input.get("text").and_then(|v| v.as_str()).unwrap_or("");
        let count = text.split_whitespace().count();
        Ok(json(&format!(r#"{{"count": {count}}}"#)))
    }
}

fn test_skill_llm() -> SkillDefinition {
    SkillDefinition {
        id: "summarize".into(),
        input_schema: JsonSchema::new(json(
            r#"{"type": "object", "required": ["text"], "properties": {"text": {"type": "string"}}}"#,
        )),
        output_schema: JsonSchema::new(json(
            r#"{"type": "object", "required": ["summary"], "properties": {"summary": {"type": "string"}}}"#,
        )),
        execution_mode: SkillExecutionMode::LLM,
        max_output_tokens: 500,
        compact_keys: None,
    }
}

fn test_skill_det() -> SkillDefinition {
    SkillDefinition {
        id: "word_count".into(),
        input_schema: JsonSchema::new(json(
            r#"{"type": "object", "required": ["text"], "properties": {"text": {"type": "string"}}}"#,
        )),
        output_schema: JsonSchema::new(json(
            r#"{"type": "object", "required": ["count"], "properties": {"count": {"type": "number"}}}"#,
        )),
        execution_mode: SkillExecutionMode::Deterministic,
        max_output_tokens: 100,
        compact_keys: None,
    }
}

fn arc(s: &str) -> Arc<String> {
    Arc::new(s.to_string())
}

#[test]
fn deterministic_execution() {
    let mut executor = SkillExecutor::new();
    executor.register_deterministic("word_count", WordCount);

    let skill = test_skill_det();
    let input = json(r#"{"text": "hello world foo"}"#);
    let provider = MockProvider {
        response: String::new(),
    };
    let result = executor
        .execute(
            &skill,
            &input,
            ResponseMode::StrictJson,
            &provider,
            &arc(""),
            &arc("mock"),
        )
        .ok()
        .expect("should succeed");

    assert!(matches!(result.output.get("count"), Some(Json::Number(n)) if n == "3"));
    assert!(!result.cached);
}

#[test]
fn llm_execution() {
    let mut executor = SkillExecutor::new();
    let skill = test_skill_llm();
    let input = json(r#"{"text": "some long text"}"#);
    let provider = MockProvider {
        response: r#"{"summary":"short"}"#.into(),
    };
    let result = executor
        .execute(
            &skill,
            &input,
            ResponseMode::StrictJson,
            &provider,
            &arc("Summarize."),
            &arc("gpt-4o"),
        )
        .ok()
        .expect("should succeed");

    assert!(result.output.get("summary").is_some());
}

#[test]
fn rejects_free_text_response() {
    let mut executor = SkillExecutor::new();
    let skill = test_skill_llm();
    let input = json(r#"{"text": "some text"}"#);
    let provider = MockProvider {
        response: r#""just a string""#.into(),
    };
    let result = executor.execute(
        &skill,
        &input,
        ResponseMode::StrictJson,
        &provider,
        &arc("Summarize."),
        &arc("gpt-4o"),
    );
    assert!(result.is_err());
    assert!(matches!(result, Err(SkillExecError::FreeTextRejected)));
}

#[test]
fn caches_result() {
    let mut executor = SkillExecutor::new();
    executor.register_deterministic("word_count", WordCount);

    let skill = test_skill_det();
    let input = json(r#"{"text": "hello world"}"#);
    let provider = MockProvider {
        response: String::new(),
    };

    let _ = executor.execute(
        &skill,
        &input,
        ResponseMode::StrictJson,
        &provider,
        &arc(""),
        &arc("mock"),
    );
    let r2 = executor
        .execute(
            &skill,
            &input,
            ResponseMode::StrictJson,
            &provider,
            &arc(""),
            &arc("mock"),
        )
        .ok()
        .expect("should succeed");
    assert!(r2.cached);
}

#[test]
fn cached_output_is_identical_and_free() {
    let mut executor = SkillExecutor::new();
    let skill = test_skill_llm();
    let input = json(r#"{"text": "t"}"#);
    let provider = MockProvider { response: r#"{"summary":"s","junk":1}"#.into() };
    let r1 = executor
        .execute(&skill, &input, ResponseMode::StrictJson, &provider, &arc(""), &arc("gpt-4o"))
        .ok()
        .expect("first");
    assert!(!r1.cached);
    assert_eq!(r1.usage.total_tokens, 30);
    assert_eq!(to_json_text(&r1.output), r#"{"summary":"s"}"#);
    let r2 = executor
        .execute(&skill, &input, ResponseMode::StrictJson, &provider, &arc(""), &arc("gpt-4o"))
        .ok()
        .expect("second");
    assert!(r2.cached);
    assert_eq!(r2.usage.total_tokens, 0);
    assert_eq!(to_json_text(&r2.output), to_json_text(&r1.output));
}

#[test]
fn executor_error_kinds() {
    let provider = MockProvider { response: "not json".into() };
    let mut executor = SkillExecutor::new();
    // Input without the required field.
    let r = executor.execute(&test_skill_llm(), &json(r#"{"other": 1}"#), ResponseMode::StrictJson, &provider, &arc(""), &arc("m"));
    match r {
        Err(SkillExecError::SchemaViolation(m)) => assert_eq!(m, "missing required field: text"),
        _ => panic!("expected a schema violation"),
    }
    // Unparseable model output.
    let r = executor.execute(&test_skill_llm(), &json(r#"{"text": "x"}"#), ResponseMode::StrictJson, &provider, &arc(""), &arc("m"));
    assert!(matches!(r, Err(SkillExecError::JsonParse(_))));
    // Deterministic skill without a handler.
    let r = executor.execute(&test_skill_det(), &json(r#"{"text": "x"}"#), ResponseMode::StrictJson, &provider, &arc(""), &arc("m"));
    match r {
        Err(e @ SkillExecError::DeterministicError(_)) => {
            assert_eq!(e.message(), "deterministic skill error: no handler for skill: word_count")
        }
        _ => panic!("expected a deterministic error"),
    }
    // Model output missing a required field.
    let p2 = MockProvider { response: r#"{"other": "x"}"#.into() };
    let r = executor.execute(&test_skill_llm(), &json(r#"{"text": "y"}"#), ResponseMode::StrictJson, &p2, &arc(""), &arc("m"));
    assert!(matches!(r, Err(SkillExecError::SchemaViolation(_))));
}

#[test]
fn output_size_limit() {
    let mut skill = test_skill_llm();
    skill.max_output_tokens = 3;
    // {"summary":"abcdefgh"} is 22 bytes: 5 tokens.
    match finish_output(&skill, json(r#"{"summary":"abcdefgh"}"#), ResponseMode::StrictJson) {
        Err(SkillExecError::OutputTooLarge { actual, max }) => {
            assert_eq!(actual, 5);
            assert_eq!(max, 3);
        }
        _ => panic!("expected too large"),
    }
    // Compact keys shorten the text that is measured: {"s":"abcdefgh"} is 16 bytes: 4 tokens.
    skill.compact_keys = Some(json(r#"{"summary": "s"}"#));
    skill.max_output_tokens = 4;
    let out = finish_output(&skill, json(r#"{"summary":"abcdefgh"}"#), ResponseMode::CompactJson)
        .ok()
        .expect("fits when compacted");
    // The kept output has the original keys.
    assert_eq!(to_json_text(&out), r#"{"summary":"abcdefgh"}"#);
    assert!(finish_output(&skill, json(r#"{"summary":"abcdefgh"}"#), ResponseMode::StrictJson).is_err());
    // A limit of zero means no limit.
    skill.max_output_tokens = 0;
    assert!(finish_output(&skill, json(r#"{"summary":"abcdefgh"}"#), ResponseMode::StrictJson).is_ok());
}

#[test]
fn interpreting_model_text() {
    assert!(matches!(interpret_response(r#""just a string""#), Err(SkillExecError::FreeTextRejected)));
    assert!(matches!(interpret_response("{oops"), Err(SkillExecError::JsonParse(_))));
    let v = interpret_response("[1, 2]").ok().expect("array");
    assert_eq!(to_json_text(&v), "[1,2]");
}

#[test]
fn input_cache_replaces_values() {
    let mut cache = SkillInputCache::new();
    let h = SkillInputCache::input_hash("s", "{}");
    assert_eq!(h, SkillInputCache::input_hash("s", "{}"));
    assert!(cache.get(h).is_none());
    cache.insert(h, json("1"));
    cache.insert(h, json("2"));
    assert_eq!(cache.get(h).map(to_json_text), Some("2".to_string()));
}

#[test]
fn same_key_twice_is_a_cache_hit() {
    let mut executor = SkillExecutor::new();
    executor.register_deterministic("word_count", WordCount);
    let skill = test_skill_det();
    let input = json(r#"{"text": "hello world"}"#);
    let provider = MockProvider { response: String::new() };
    let h = SkillInputCache::input_hash("word_count", &to_json_text(&input));
    let r1 = executor
        .execute_with_hash(h, &skill, &input, ResponseMode::StrictJson, &provider, &arc(""), &arc("m"))
        .ok()
        .expect("first");
    assert!(!r1.cached);
    assert_eq!(to_json_text(&r1.output), r#"{"count":2}"#);
    let r2 = executor
        .execute_with_hash(h, &skill, &input, ResponseMode::StrictJson, &provider, &arc(""), &arc("m"))
        .ok()
        .expect("second");
    assert!(r2.cached);
    assert_eq!(to_json_text(&r2.output), r#"{"count":2}"#);
    assert_eq!(r2.usage.total_tokens, 0);
}

#[test]
fn failures_leave_the_cache_alone() {
    let mut executor = SkillExecutor::new();
    let skill = test_skill_llm();
    let input = json(r#"{"text": "x"}"#);
    let bad = MockProvider { response: r#""free text""#.into() };
    let good = MockProvider { response: r#"{"summary":"ok"}"#.into() };
    assert!(executor
        .execute(&skill, &input, ResponseMode::StrictJson, &bad, &arc(""), &arc("m"))
        .is_err());
    let r = executor
        .execute(&skill, &input, ResponseMode::StrictJson, &good, &arc(""), &arc("m"))
        .ok()
        .expect("second call reaches the model");
    assert!(!r.cached);
    assert_eq!(r.usage.total_tokens, 30);
}

#[test]
fn request_carries_input_text_and_limits() {
    let prompt = arc("Summarize.");
    let model = arc("gpt-4o");
    let req = agenthub_runtime::skill_executor::model_request(
        to_json_text(&json(r#"{"text": "a"}"#)),
        500,
        &prompt,
        &model,
    );
    assert_eq!(req.user_content, r#"{"text":"a"}"#);
    assert_eq!(req.max_tokens, 500);
    assert!(Arc::ptr_eq(&req.system_prompt, &prompt));
    assert!(Arc::ptr_eq(&req.model, &model));
}
