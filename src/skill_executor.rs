//! Runs one skill: input cache, schema checks, deterministic handlers or a
//! model call, strict-JSON enforcement and the output size limit.

use vstd::prelude::*;
use std::hash::{Hash, Hasher};
use std::sync::Arc;
use crate::json::{
    Json, JsonView, append_text, field_insert, fields_view, json_parse, json_text, lemma_view_fields,
    lookup, parse_json_text, to_json_text,
};
use crate::hash_maps::{
    HandlerMap, InputMap, cached_values, handler_keys, handler_map_get, handler_map_insert, handler_map_new,
    input_map_get, input_map_insert, input_map_new,
};
use crate::provider::{LLMRequest, ModelProvider, ProviderError, TokenUsage};
use crate::skill::{
    ResponseMode, SkillDefinition, SkillExecutionMode, fault_text,
    schema_check, stripped,
};
use crate::token_optimizer::{estimate_tokens, set_all, share_text, tokens_of};

verus! {

pub enum SkillExecError {
    Provider(ProviderError),
    SchemaViolation(String),
    OutputTooLarge { actual: u32, max: u32 },
    DeterministicError(String),
    JsonParse(String),
    FreeTextRejected,
}

/// The message of a skill error.
pub open spec fn skill_error_text(e: SkillExecError) -> Seq<char> {
    match e {
        SkillExecError::Provider(p) => "provider error: "@ + crate::provider::provider_error_text(p),
        SkillExecError::SchemaViolation(m) => "schema validation: "@ + m@,
        SkillExecError::OutputTooLarge { actual, max } => "output exceeds max tokens: "@
            + crate::token_optimizer::dec_text(actual as nat) + " > "@ + crate::token_optimizer::dec_text(
            max as nat,
        ),
        SkillExecError::DeterministicError(m) => "deterministic skill error: "@ + m@,
        SkillExecError::JsonParse(m) => "json parse error: "@ + m@,
        SkillExecError::FreeTextRejected => "free text rejected"@,
    }
}

impl SkillExecError {
    pub fn message(&self) -> (r: String)
        ensures
            r@ == skill_error_text(*self),
    {
        match self {
            SkillExecError::Provider(p) => {
                let mut r = "provider error: ".to_owned();
                let m = p.message();
                append_text(&mut r, m.as_str());
                r
            },
            SkillExecError::SchemaViolation(m) => {
                let mut r = "schema validation: ".to_owned();
                append_text(&mut r, m.as_str());
                r
            },
            SkillExecError::OutputTooLarge { actual, max } => {
                let mut r = "output exceeds max tokens: ".to_owned();
                crate::token_optimizer::push_decimal(&mut r, *actual as u128);
                append_text(&mut r, " > ");
                crate::token_optimizer::push_decimal(&mut r, *max as u128);
                r
            },
            SkillExecError::DeterministicError(m) => {
                let mut r = "deterministic skill error: ".to_owned();
                append_text(&mut r, m.as_str());
                r
            },
            SkillExecError::JsonParse(m) => {
                let mut r = "json parse error: ".to_owned();
                append_text(&mut r, m.as_str());
                r
            },
            SkillExecError::FreeTextRejected => "free text rejected".to_owned(),
        }
    }
}

/// Outputs of earlier executions, keyed by a hash of skill id and input.
pub struct SkillInputCache {
    cache: InputMap,
}

/// The value cached under `h`, if any.
pub open spec fn cached_under(entries: Map<u64, JsonView>, h: u64) -> Option<JsonView> {
    if entries.contains_key(h) {
        Some(entries[h])
    } else {
        None
    }
}

impl SkillInputCache {
    pub closed spec fn entries(&self) -> Map<u64, JsonView> {
        cached_values(self.cache)
    }

    pub fn new() -> (r: Self)
        ensures
            r.entries() == Map::<u64, JsonView>::empty(),
    {
        let r = SkillInputCache { cache: input_map_new() };
        proof {
            assert(r.entries() =~= Map::<u64, JsonView>::empty());
        }
        r
    }

    pub fn get(&self, hash: u64) -> (r: Option<&Json>)
        ensures
            match cached_under(self.entries(), hash) {
                Some(v) => r is Some && r->Some_0@ == v,
                None => r is None,
            },
    {
        input_map_get(&self.cache, hash)
    }

    /// Stores `value` under `hash`, replacing an earlier value.
    pub fn insert(&mut self, hash: u64, value: Json)
        ensures
            final(self).entries() == old(self).entries().insert(hash, value@),
    {
        input_map_insert(&mut self.cache, hash, value);
    }

    /// Relies on ahash's `AHasher` (through `Hash for str`): a 64-bit hash
    /// of the skill id and the input text. Its keys are drawn once per
    /// process, so nothing is stated of the value.
    #[verifier::external_body]
    pub fn input_hash(skill_id: &str, input: &str) -> u64 {
        let mut hasher = ahash::AHasher::default();
        skill_id.hash(&mut hasher);
        input.hash(&mut hasher);
        hasher.finish()
    }
}

/// A skill whose output a pure function of the library's user computes.
pub trait DeterministicHandler {
    fn run(&self, input: &Json) -> Result<Json, SkillExecError>;
}

pub struct SkillExecResult {
    pub output: Json,
    pub usage: TokenUsage,
    pub cached: bool,
}

/// The short name of a key under a compact-key mapping (kept when it has none).
pub open spec fn compact_name(m: Seq<(Seq<char>, JsonView)>, k: Seq<char>) -> Seq<char> {
    match lookup(m, k) {
        Some(JsonView::Str(s)) => s,
        _ => k,
    }
}

pub open spec fn compact_pairs(o: Seq<(Seq<char>, JsonView)>, m: Seq<(Seq<char>, JsonView)>) -> Seq<(Seq<char>, JsonView)> {
    Seq::new(o.len(), |i: int| (compact_name(m, o[i].0), o[i].1))
}

/// An object with its top-level keys renamed by the mapping; other values unchanged.
pub open spec fn compacted(v: JsonView, mapping: Option<JsonView>) -> JsonView {
    match (mapping, v) {
        (Some(JsonView::Object(m)), JsonView::Object(o)) => JsonView::Object(set_all(compact_pairs(o, m))),
        _ => v,
    }
}

pub open spec fn keys_view(k: Option<Json>) -> Option<JsonView> {
    match k {
        Some(j) => Some(j@),
        None => None,
    }
}

/// The text whose size is checked against the output limit.
pub open spec fn output_text(skill: SkillDefinition, out: JsonView, mode: ResponseMode) -> Seq<char> {
    match mode {
        ResponseMode::StrictJson => json_text(out),
        ResponseMode::CompactJson => json_text(compacted(out, keys_view(skill.compact_keys))),
    }
}

/// The output is too large for the skill's limit (0 means no limit).
pub open spec fn too_large(skill: SkillDefinition, out: JsonView, mode: ResponseMode) -> bool {
    skill.max_output_tokens > 0 && tokens_of(output_text(skill, out, mode)) > skill.max_output_tokens
}

/// What becomes of a raw output: stripped of undeclared fields, checked
/// against the output schema, then against the size limit.
pub open spec fn finished(skill: SkillDefinition, raw: JsonView, mode: ResponseMode, r: Result<Json, SkillExecError>) -> bool {
    let out = stripped(skill.output_schema.schema@, raw);
    match schema_check(skill.output_schema.schema@, out) {
        Some(f) => r matches Err(SkillExecError::SchemaViolation(m)) && m@ == fault_text(f),
        None => if too_large(skill, out, mode) {
            r matches Err(SkillExecError::OutputTooLarge { actual, max }) && actual == tokens_of(
                output_text(skill, out, mode),
            ) && max == skill.max_output_tokens
        } else {
            r matches Ok(v) && v@ == out
        },
    }
}

/// What the model's answer text gives: a JSON value that is not a bare string.
pub open spec fn interpreted(content: Seq<char>, r: Result<Json, SkillExecError>) -> bool {
    match json_parse(content) {
        None => r matches Err(SkillExecError::JsonParse(_)),
        Some(JsonView::Str(_)) => r matches Err(SkillExecError::FreeTextRejected),
        Some(v) => r matches Ok(x) && x@ == v,
    }
}

fn reject_free_text(value: &Json) -> (r: Result<(), SkillExecError>)
    ensures
        value@ is Str ==> r matches Err(SkillExecError::FreeTextRejected),
        !(value@ is Str) ==> r is Ok,
{
    if value.is_string() {
        return Err(SkillExecError::FreeTextRejected);
    }
    Ok(())
}

/// Reads the model's answer as JSON and refuses a bare string.
pub fn interpret_response(content: &str) -> (r: Result<Json, SkillExecError>)
    ensures
        interpreted(content@, r),
{
    match parse_json_text(content) {
        Ok(v) => {
            match reject_free_text(&v) {
                Ok(()) => Ok(v),
                Err(e) => Err(e),
            }
        },
        Err(m) => Err(SkillExecError::JsonParse(m)),
    }
}

/// Renames the top-level keys of an object through the mapping.
fn apply_compact_keys(value: &mut Json, mapping: &Option<Json>)
    ensures
        final(value)@ == compacted(old(value)@, keys_view(*mapping)),
{
    let map = match mapping {
        Some(m) => m,
        None => {
            return ;
        },
    };
    if let (Json::Object(map_obj), Json::Object(val_obj)) = (map, &*value) {
        proof {
            lemma_view_fields(*map_obj);
            lemma_view_fields(*val_obj);
        }
        let ghost mv = fields_view(map_obj@);
        let ghost pairs = compact_pairs(fields_view(val_obj@), mv);
        let mut new_obj: Vec<(String, Json)> = Vec::new();
        let mut i: usize = 0;
        while i < val_obj.len()
            invariant
                i <= val_obj.len(),
                mv == fields_view(map_obj@),
                pairs == compact_pairs(fields_view(val_obj@), mv),
                fields_view(new_obj@) == set_all(pairs.take(i as int)),
            decreases val_obj.len() - i,
        {
            proof {
                assert(pairs.take(i as int + 1).drop_last() =~= pairs.take(i as int));
            }
            let k = &val_obj[i].0;
            let v = val_obj[i].1.deep_clone();
            let short = match crate::json::field_get(map_obj, k.as_str()) {
                Some(s) => match s.as_str() {
                    Some(t) => t.to_owned(),
                    None => k.clone(),
                },
                None => k.clone(),
            };
            field_insert(&mut new_obj, short, v);
            i += 1;
        }
        proof {
            assert(pairs.take(i as int) =~= pairs);
        }
        let r = Json::Object(new_obj);
        proof {
            lemma_view_fields(new_obj);
        }
        *value = r;
    }
}

/// Checks and settles a raw skill output: strips undeclared fields,
/// validates it against the output schema, and enforces the size limit.
pub fn finish_output(skill: &SkillDefinition, raw: Json, response_mode: ResponseMode) -> (r: Result<Json, SkillExecError>)
    ensures
        finished(*skill, raw@, response_mode, r),
{
    let mut output = raw;
    skill.output_schema.strip_unknown_fields(&mut output);
    match skill.output_schema.validate(&output) {
        Ok(()) => {},
        Err(e) => {
            let m = e.message();
            return Err(SkillExecError::SchemaViolation(m));
        },
    }
    let output_str = match response_mode {
        ResponseMode::StrictJson => to_json_text(&output),
        ResponseMode::CompactJson => {
            let mut compact = output.deep_clone();
            apply_compact_keys(&mut compact, &skill.compact_keys);
            to_json_text(&compact)
        },
    };
    if skill.max_output_tokens > 0 {
        let token_est = estimate_tokens(output_str.as_str());
        if token_est > skill.max_output_tokens {
            return Err(SkillExecError::OutputTooLarge { actual: token_est, max: skill.max_output_tokens });
        }
    }
    Ok(output)
}

/// The output was accepted for the skill from some raw output.
pub open spec fn accepted(skill: SkillDefinition, mode: ResponseMode, out: JsonView) -> bool {
    exists|raw: JsonView| out == stripped(skill.output_schema.schema@, raw)
        && schema_check(skill.output_schema.schema@, out) is None && !too_large(skill, out, mode)
}

pub struct SkillExecutor {
    cache: SkillInputCache,
    deterministic_handlers: HandlerMap,
}

impl SkillExecutor {
    pub closed spec fn cache_entries(&self) -> Map<u64, JsonView> {
        self.cache.entries()
    }

    pub closed spec fn handler_ids(&self) -> Set<Seq<char>> {
        handler_keys(self.deterministic_handlers)
    }

    pub fn new() -> (r: Self)
        ensures
            r.cache_entries() == Map::<u64, JsonView>::empty(),
            r.handler_ids() == Set::<Seq<char>>::empty(),
    {
        SkillExecutor { cache: SkillInputCache::new(), deterministic_handlers: handler_map_new() }
    }

    /// Registers the handler of a deterministic skill (replacing an earlier one).
    pub fn register_deterministic<F: DeterministicHandler + 'static>(&mut self, skill_id: &str, handler: F)
        ensures
            final(self).cache_entries() == old(self).cache_entries(),
            final(self).handler_ids() == old(self).handler_ids().insert(skill_id@),
    {
        let b: Box<dyn DeterministicHandler> = Box::new(handler);
        handler_map_insert(&mut self.deterministic_handlers, skill_id.to_owned(), b);
    }

    /// Runs a skill on an input. The cache key is a hash of the skill id
    /// and the input's JSON text; what follows is [`Self::execute_with_hash`].
    pub fn execute(
        &mut self,
        skill: &SkillDefinition,
        input: &Json,
        response_mode: ResponseMode,
        provider: &dyn ModelProvider,
        system_prompt: &Arc<String>,
        model: &Arc<String>,
    ) -> (r: Result<SkillExecResult, SkillExecError>)
        ensures
            final(self).handler_ids() == old(self).handler_ids(),
            exists|h: u64|
                executed(
                    old(self).cache_entries(),
                    final(self).cache_entries(),
                    old(self).handler_ids(),
                    h,
                    *skill,
                    *input,
                    response_mode,
                    r,
                ),
    {
        let input_str = to_json_text(input);
        let hash = SkillInputCache::input_hash(skill.id.as_str(), input_str.as_str());
        self.execute_with_hash(hash, skill, input, response_mode, provider, system_prompt, model)
    }

    /// Runs a skill whose cache key is `hash`: a cached output is returned
    /// as it is; otherwise the input is checked, the handler or the model
    /// produces the raw output, [`Self::settle`] checks it and caches it.
    pub fn execute_with_hash(
        &mut self,
        hash: u64,
        skill: &SkillDefinition,
        input: &Json,
        response_mode: ResponseMode,
        provider: &dyn ModelProvider,
        system_prompt: &Arc<String>,
        model: &Arc<String>,
    ) -> (r: Result<SkillExecResult, SkillExecError>)
        ensures
            final(self).handler_ids() == old(self).handler_ids(),
            executed(
                old(self).cache_entries(),
                final(self).cache_entries(),
                old(self).handler_ids(),
                hash,
                *skill,
                *input,
                response_mode,
                r,
            ),
    {
        match self.cache.get(hash) {
            Some(cached) => {
                return Ok(
                    SkillExecResult {
                        output: cached.deep_clone(),
                        usage: TokenUsage::default(),
                        cached: true,
                    },
                );
            },
            None => {},
        }
        match skill.input_schema.validate(input) {
            Ok(()) => {},
            Err(e) => {
                let m = e.message();
                return Err(SkillExecError::SchemaViolation(m));
            },
        }
        match skill.execution_mode {
            SkillExecutionMode::Deterministic => {
                let handler = match handler_map_get(&self.deterministic_handlers, skill.id.as_str()) {
                    Some(h) => h,
                    None => {
                        let mut m = "no handler for skill: ".to_owned();
                        append_text(&mut m, skill.id.as_str());
                        return Err(SkillExecError::DeterministicError(m));
                    },
                };
                let raw = match handler.run(input) {
                    Ok(v) => v,
                    Err(e) => {
                        return Err(e);
                    },
                };
                self.settle(hash, skill, raw, TokenUsage::default(), response_mode)
            },
            SkillExecutionMode::LLM => {
                let request = model_request(
                    to_json_text(input),
                    skill.max_output_tokens,
                    system_prompt,
                    model,
                );
                let response = match provider.call_model(request) {
                    Ok(resp) => resp,
                    Err(e) => {
                        return Err(SkillExecError::Provider(e));
                    },
                };
                let parsed = match interpret_response(response.content.as_str()) {
                    Ok(v) => v,
                    Err(e) => {
                        return Err(e);
                    },
                };
                self.settle(hash, skill, parsed, response.usage, response_mode)
            },
        }
    }

    /// Settles a raw output under cache key `hash`: [`finish_output`]
    /// checks it; an accepted output is cached and returned with `usage`,
    /// a refused one leaves the cache as it was.
    pub fn settle(
        &mut self,
        hash: u64,
        skill: &SkillDefinition,
        raw: Json,
        usage: TokenUsage,
        response_mode: ResponseMode,
    ) -> (r: Result<SkillExecResult, SkillExecError>)
        ensures
            final(self).handler_ids() == old(self).handler_ids(),
            settled(old(self).cache_entries(), final(self).cache_entries(), hash, *skill, raw@, usage, response_mode, r),
    {
        let ghost raw_view = raw@;
        let output = match finish_output(skill, raw, response_mode) {
            Ok(o) => o,
            Err(e) => {
                return Err(e);
            },
        };
        self.cache.insert(hash, output.deep_clone());
        Ok(SkillExecResult { output, usage, cached: false })
    }
}

/// A request for the model: the input's JSON text, the skill's output
/// limit, and the prompt and model handed in.
pub fn model_request(
    input_text: String,
    max_tokens: u32,
    system_prompt: &Arc<String>,
    model: &Arc<String>,
) -> (r: LLMRequest)
    ensures
        r.user_content == input_text,
        r.max_tokens == max_tokens,
        r.system_prompt@ == system_prompt@,
        r.model@ == model@,
{
    LLMRequest {
        system_prompt: share_text(system_prompt),
        user_content: input_text,
        max_tokens,
        model: share_text(model),
    }
}

pub open spec fn zero_usage() -> TokenUsage {
    TokenUsage { prompt_tokens: 0, completion_tokens: 0, total_tokens: 0 }
}

/// Cache `after` is `before` with `v` stored under `hash`.
pub open spec fn cache_stores(before: Map<u64, JsonView>, after: Map<u64, JsonView>, hash: u64, v: JsonView) -> bool {
    after == before.insert(hash, v)
}

/// What settling a raw output gives: the result of [`finished`] with the
/// usage passed through; the output cached under `hash` on success, the
/// cache unchanged on failure.
pub open spec fn settled(
    before: Map<u64, JsonView>,
    after: Map<u64, JsonView>,
    hash: u64,
    skill: SkillDefinition,
    raw: JsonView,
    usage: TokenUsage,
    mode: ResponseMode,
    r: Result<SkillExecResult, SkillExecError>,
) -> bool {
    match r {
        Ok(res) => {
            &&& finished(skill, raw, mode, Ok::<Json, SkillExecError>(res.output))
            &&& res.usage == usage
            &&& !res.cached
            &&& cache_stores(before, after, hash, res.output@)
        },
        Err(e) => finished(skill, raw, mode, Err::<Json, SkillExecError>(e)) && after == before,
    }
}

/// What executing a skill under cache key `hash` gives.
pub open spec fn executed(
    before: Map<u64, JsonView>,
    after: Map<u64, JsonView>,
    handlers: Set<Seq<char>>,
    hash: u64,
    skill: SkillDefinition,
    input: Json,
    mode: ResponseMode,
    r: Result<SkillExecResult, SkillExecError>,
) -> bool {
    match cached_under(before, hash) {
        Some(v) => r matches Ok(res) && res.cached && res.output@ == v && res.usage == zero_usage()
            && after == before,
        None => {
            &&& r is Err ==> after == before
            &&& r matches Ok(res) ==> {
                &&& !res.cached
                &&& schema_check(skill.input_schema.schema@, input@) is None
                &&& accepted(skill, mode, res.output@)
                &&& skill.execution_mode == SkillExecutionMode::Deterministic ==> res.usage == zero_usage()
                &&& cache_stores(before, after, hash, res.output@)
            }
            &&& match schema_check(skill.input_schema.schema@, input@) {
                Some(f) => r matches Err(SkillExecError::SchemaViolation(m)) && m@ == fault_text(f),
                None => (skill.execution_mode == SkillExecutionMode::Deterministic && !handlers.contains(
                    skill.id@,
                )) ==> (r matches Err(SkillExecError::DeterministicError(m)) && m@ == "no handler for skill: "@
                    + skill.id@),
            }
        },
    }
}

} // verus!
