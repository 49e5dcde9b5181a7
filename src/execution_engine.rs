//! Runs a compiled agent: skills in dependency order, each with its delta,
//! memory and prompt, under a predictive token budget.

use vstd::prelude::*;
use std::sync::Arc;
use crate::agent_compiler::CompiledAgent;
use crate::json::{
    Json, JsonView, field_insert, fields_view, json_text, lemma_view_fields, to_json_text, same_text,
};
use crate::hash_maps::{OutputMap, output_map_insert, output_map_new, outputs_of};
use crate::memory::{MemoryEntry, MemoryManager, estimate_memory_tokens, selected_bytes};
use crate::provider::{ModelProvider, TokenUsage, cost_rate, model_cost_per_1k};
use crate::skill::{SkillDefinition, SkillExecutionMode, stripped};
use crate::skill_executor::{SkillExecResult, SkillExecutor};
use crate::agent_compiler::{dep_view, def_index, id_pred};
use crate::skill::{first_where, lemma_first_where, lemma_first_where_stable};
use crate::skill_graph::{DependencySpec, SkillNode, GraphError, graph_error_text, kahn_order, texts};
use crate::token_optimizer::{
    DeltaContextEngine, PredictiveEstimator, SemanticCompressor, StaticPromptCache, TokenBreakdown,
    TokenTracker, ToolSchemaCache, compressed, delta_of, deps_view, estimate_tokens, report_text, set_all, sum_cost, sum_tokens,
    tokens_of,
};

verus! {

pub enum ExecutionError {
    SkillError(String),
    GraphError(String),
    BudgetExhausted { used: u32, limit: u32 },
}

/// The message of an execution error.
pub open spec fn execution_error_text(e: ExecutionError) -> Seq<char> {
    match e {
        ExecutionError::SkillError(m) => "skill execution failed: "@ + m@,
        ExecutionError::GraphError(m) => "graph error: "@ + m@,
        ExecutionError::BudgetExhausted { used, limit } => "budget exhausted: used "@
            + crate::token_optimizer::dec_text(used as nat) + ", limit "@ + crate::token_optimizer::dec_text(
            limit as nat,
        ),
    }
}

impl ExecutionError {
    pub fn message(&self) -> (r: String)
        ensures
            r@ == execution_error_text(*self),
    {
        match self {
            ExecutionError::SkillError(m) => {
                let mut r = "skill execution failed: ".to_owned();
                crate::json::append_text(&mut r, m.as_str());
                r
            },
            ExecutionError::GraphError(m) => {
                let mut r = "graph error: ".to_owned();
                crate::json::append_text(&mut r, m.as_str());
                r
            },
            ExecutionError::BudgetExhausted { used, limit } => {
                let mut r = "budget exhausted: used ".to_owned();
                crate::token_optimizer::push_decimal(&mut r, *used as u128);
                crate::json::append_text(&mut r, ", limit ");
                crate::token_optimizer::push_decimal(&mut r, *limit as u128);
                r
            },
        }
    }
}

pub struct ExecutionResult {
    pub outputs: OutputMap,
    pub report: String,
    /// Billionths of a US dollar.
    pub total_cost: u128,
    pub total_tokens: u128,
}

/// The model for a call: the cheaper one when the estimate is more than
/// half of what remains of the budget.
pub open spec fn model_for(budget_remaining: u32, estimated_cost: u32) -> Seq<char> {
    let remaining = if budget_remaining == 0 { 1 } else { budget_remaining as int };
    if 2 * estimated_cost > remaining {
        "gpt-4o-mini"@
    } else {
        "gpt-4o"@
    }
}

pub fn select_model(budget_remaining: u32, estimated_cost: u32) -> (r: String)
    ensures
        r@ == model_for(budget_remaining, estimated_cost),
{
    let remaining: u64 = if budget_remaining == 0 { 1 } else { budget_remaining as u64 };
    if 2 * (estimated_cost as u64) > remaining {
        "gpt-4o-mini".to_owned()
    } else {
        "gpt-4o".to_owned()
    }
}

/// The fields of every source object of a delta, in order.
pub open spec fn flat_pairs(o: Seq<(Seq<char>, JsonView)>) -> Seq<(Seq<char>, JsonView)>
    decreases o.len(),
{
    if o.len() == 0 {
        Seq::empty()
    } else {
        flat_pairs(o.drop_last()) + match o.last().1 {
            JsonView::Object(f) => f,
            _ => Seq::empty(),
        }
    }
}

/// A delta flattened one level: the fields of its source objects merged in
/// the delta's key order, which [`DeltaContextEngine::compute_delta`] keeps
/// ascending by source id (a later field replacing an earlier one); the delta itself when that
/// leaves nothing.
pub open spec fn flattened(delta: JsonView) -> JsonView {
    match delta {
        JsonView::Object(o) => if set_all(flat_pairs(o)).len() == 0 {
            delta
        } else {
            JsonView::Object(set_all(flat_pairs(o)))
        },
        _ => delta,
    }
}

pub fn flatten_delta(delta: &Json) -> (r: Json)
    ensures
        r@ == flattened(delta@),
{
    if let Json::Object(obj) = delta {
        proof {
            lemma_view_fields(*obj);
        }
        let ghost o = fields_view(obj@);
        let mut merged: Vec<(String, Json)> = Vec::new();
        let mut i: usize = 0;
        while i < obj.len()
            invariant
                i <= obj.len(),
                o == fields_view(obj@),
                fields_view(merged@) == set_all(flat_pairs(o.take(i as int))),
            decreases obj.len() - i,
        {
            proof {
                assert(o.take(i as int + 1).drop_last() =~= o.take(i as int));
            }
            if let Json::Object(fo) = &obj[i].1 {
                proof {
                    lemma_view_fields(*fo);
                }
                let ghost f = fields_view(fo@);
                let ghost base = flat_pairs(o.take(i as int));
                let mut j: usize = 0;
                proof {
                    assert(base + f.take(0) =~= base);
                }
                while j < fo.len()
                    invariant
                        j <= fo.len(),
                        f == fields_view(fo@),
                        fields_view(merged@) == set_all(base + f.take(j as int)),
                    decreases fo.len() - j,
                {
                    proof {
                        assert((base + f.take(j as int + 1)).drop_last() =~= base + f.take(j as int));
                        assert((base + f.take(j as int + 1)).last() == f[j as int]);
                    }
                    field_insert(&mut merged, fo[j].0.clone(), fo[j].1.deep_clone());
                    j += 1;
                }
                proof {
                    assert(f.take(j as int) =~= f);
                }
            } else {
                proof {
                    assert(flat_pairs(o.take(i as int + 1)) =~= flat_pairs(o.take(i as int)));
                }
            }
            i += 1;
        }
        proof {
            assert(o.take(i as int) =~= o);
        }
        if merged.len() == 0 {
            proof {
                assert(fields_view(merged@).len() == 0);
            }
            return delta.deep_clone();
        }
        let r = Json::Object(merged);
        proof {
            lemma_view_fields(merged);
        }
        r
    } else {
        delta.deep_clone()
    }
}

/// The input of a skill that has no delta.
pub open spec fn start_input() -> JsonView {
    JsonView::Object(seq![("input"@, JsonView::Str("start"@))])
}

fn start_value() -> (r: Json)
    ensures
        r@ == start_input(),
{
    let mut fields: Vec<(String, Json)> = Vec::new();
    fields.push(("input".to_owned(), Json::Str("start".to_owned())));
    let r = Json::Object(fields);
    proof {
        lemma_view_fields(fields);
        assert(fields_view(fields@) =~= seq![("input"@, JsonView::Str("start"@))]);
    }
    r
}

/// What remains of `budget` after the calls recorded in `recs`, each
/// taking its total tokens (saturating at zero).
pub open spec fn remaining_after(budget: u32, recs: Seq<TokenBreakdown>) -> u32
    decreases recs.len(),
{
    if recs.len() == 0 {
        budget
    } else {
        let before = remaining_after(budget, recs.drop_last());
        if before >= recs.last().total_tokens {
            (before - recs.last().total_tokens) as u32
        } else {
            0
        }
    }
}

/// Budget monotonicity: what remains of the budget never grows from one
/// skill call to the next.
pub proof fn lemma_budget_monotone(budget: u32, recs: Seq<TokenBreakdown>, k: int)
    requires
        0 <= k < recs.len(),
    ensures
        remaining_after(budget, recs.take(k + 1)) <= remaining_after(budget, recs.take(k)),
        remaining_after(budget, recs) <= budget,
    decreases recs.len(),
{
    assert(recs.take(k + 1).drop_last() =~= recs.take(k));
    if recs.len() > 1 {
        if k < recs.len() - 1 {
            lemma_budget_monotone(budget, recs.drop_last(), k);
            assert(recs.drop_last().take(k + 1) =~= recs.take(k + 1));
            assert(recs.drop_last().take(k) =~= recs.take(k));
        } else {
            lemma_budget_monotone(budget, recs.drop_last(), k - 1);
        }
    }
}

/// The prediction exceeds what remains of the budget by more than a quarter.
pub open spec fn over_budget(total: int, remaining: u32) -> bool {
    total > remaining as int + remaining as int / 4
}

/// Cost of a call in billionths of a dollar: tokens / 1000 × rate per 1000.
pub open spec fn call_cost(tokens: u32, model: Seq<char>) -> u64 {
    (tokens as int * (cost_rate(model) as int / 1000)) as u64
}

fn cost_of(tokens: u32, model: &str) -> (r: u64)
    ensures
        r == call_cost(tokens, model@),
{
    let rate = model_cost_per_1k(model);
    proof {
        assert(tokens as int * (rate as int / 1000) <= u32::MAX as int * 10_000) by (nonlinear_arith)
            requires rate <= 10_000_000, tokens <= u32::MAX;
    }
    (tokens as u64) * (rate / 1000)
}

pub open spec fn node_id_pred(nodes: Seq<SkillNode>, id: Seq<char>) -> spec_fn(int) -> bool {
    |k: int| nodes[k].skill_id@ == id
}

/// The dependencies of the first node with id `id`, as source and field names.
pub open spec fn node_deps(nodes: Seq<SkillNode>, id: Seq<char>) -> Seq<(Seq<char>, Seq<Seq<char>>)> {
    match first_where(nodes.len() as int, node_id_pred(nodes, id)) {
        Some(k) => nodes[k].dependencies@.map_values(|d: DependencySpec| dep_view(d)),
        None => Seq::empty(),
    }
}

/// The dependencies of the node `skill_id` (the first node of that id), as
/// source and field names.
fn node_dependencies(agent: &CompiledAgent, skill_id: &str) -> (r: Vec<(String, Vec<String>)>)
    ensures
        deps_view(r@) == node_deps(agent.graph.nodes@, skill_id@),
{
    let ghost nodes = agent.graph.nodes@;
    let ghost p = node_id_pred(nodes, skill_id@);
    let mut k: usize = 0;
    while k < agent.graph.nodes.len()
        invariant
            nodes == agent.graph.nodes@,
            p == node_id_pred(nodes, skill_id@),
            k <= nodes.len(),
            first_where(k as int, p) is None,
        decreases agent.graph.nodes.len() - k,
    {
        if same_text(agent.graph.nodes[k].skill_id.as_str(), skill_id) {
            proof {
                assert(p(k as int));
                lemma_first_where(k as int, p);
                assert(first_where(k as int + 1, p) == Some(k as int));
                lemma_first_where_stable(k as int + 1, nodes.len() as int, p);
            }
            let deps = &agent.graph.nodes[k].dependencies;
            let ghost dv = deps@.map_values(|d: DependencySpec| dep_view(d));
            let mut out: Vec<(String, Vec<String>)> = Vec::new();
            let mut j: usize = 0;
            while j < deps.len()
                invariant
                    j <= deps.len(),
                    dv == deps@.map_values(|d: DependencySpec| dep_view(d)),
                    deps_view(out@) == dv.take(j as int),
                decreases deps.len() - j,
            {
                let ghost before = out@;
                out.push((deps[j].source_skill.clone(), crate::agent_compiler::copy_texts(&deps[j].fields)));
                proof {
                    assert(deps_view(out@) =~= deps_view(before).push(dv[j as int]));
                    assert(dv.take(j as int + 1) =~= dv.take(j as int).push(dv[j as int]));
                }
                j += 1;
            }
            proof {
                assert(dv.take(j as int) =~= dv);
            }
            return out;
        }
        k += 1;
    }
    let r: Vec<(String, Vec<String>)> = Vec::new();
    proof {
        assert(deps_view(r@) =~= Seq::<(Seq<char>, Seq<Seq<char>>)>::empty());
    }
    r
}

/// The definition of a skill id in the agent: the first with that id.
pub open spec fn def_of(agent: CompiledAgent, id: Seq<char>) -> SkillDefinition {
    agent.skills@[def_index(agent.skills@, id)->Some_0]
}

/// The first definition in the agent with that id.
fn find_skill<'a>(agent: &'a CompiledAgent, skill_id: &str) -> (r: Option<&'a SkillDefinition>)
    ensures
        def_index(agent.skills@, skill_id@) is Some <==> r is Some,
        r matches Some(s) ==> *s == def_of(*agent, skill_id@) && s.id@ == skill_id@,
{
    proof {
        lemma_first_where(agent.skills@.len() as int, id_pred(agent.skills@, skill_id@));
    }
    match crate::agent_compiler::find_definition(agent.skills.as_slice(), skill_id) {
        Some(k) => Some(&agent.skills[k]),
        None => None,
    }
}

/// The ids among the first `n` of `order` that the agent defines, in order.
pub open spec fn defined_upto(agent: CompiledAgent, order: Seq<Seq<char>>, n: int) -> Seq<Seq<char>>
    decreases n,
{
    if n <= 0 {
        Seq::empty()
    } else {
        let r = defined_upto(agent, order, n - 1);
        if def_index(agent.skills@, order[n - 1]) is Some {
            r.push(order[n - 1])
        } else {
            r
        }
    }
}

/// The ids of the order that the agent defines, in order: the skills a run executes.
pub open spec fn defined_ids(agent: CompiledAgent, order: Seq<Seq<char>>) -> Seq<Seq<char>> {
    defined_upto(agent, order, order.len() as int)
}

proof fn lemma_defined_upto(agent: CompiledAgent, order: Seq<Seq<char>>, m: int, n: int)
    requires
        0 <= m <= n <= order.len(),
        order.no_duplicates(),
    ensures
        defined_upto(agent, order, m).len() <= defined_upto(agent, order, n).len(),
        defined_upto(agent, order, n).take(defined_upto(agent, order, m).len() as int) == defined_upto(agent, order, m),
        defined_upto(agent, order, n).no_duplicates(),
        forall|j: int| 0 <= j < defined_upto(agent, order, n).len() ==> order.take(n).contains(
            #[trigger] defined_upto(agent, order, n)[j],
        ) && def_index(agent.skills@, defined_upto(agent, order, n)[j]) is Some,
    decreases n,
{
    let d = defined_upto(agent, order, n);
    if n == 0 {
        assert(d.take(0) =~= d);
    } else {
        let p = defined_upto(agent, order, n - 1);
        if m < n {
            lemma_defined_upto(agent, order, m, n - 1);
        } else {
            lemma_defined_upto(agent, order, n - 1, n - 1);
        }
        assert forall|j: int| 0 <= j < p.len() implies order.take(n).contains(#[trigger] p[j]) by {
            let q = choose|q: int| 0 <= q < order.take(n - 1).len() && #[trigger] order.take(n - 1)[q] == p[j];
            assert(order.take(n)[q] == p[j]);
        }
        if def_index(agent.skills@, order[n - 1]) is Some {
            assert(order.take(n)[n - 1] == order[n - 1]);
            assert forall|j: int| 0 <= j < p.len() implies p[j] != order[n - 1] by {
                let q = choose|q: int| 0 <= q < order.take(n - 1).len() && #[trigger] order.take(n - 1)[q] == p[j];
                assert(order[q] == p[j]);
            }
            if m == n {
                assert(d.take(d.len() as int) =~= d);
            } else {
                let pm = defined_upto(agent, order, m);
                assert(d.take(pm.len() as int) =~= p.take(pm.len() as int));
            }
        } else {
            if m == n {
                assert(d.take(d.len() as int) =~= d);
            }
        }
    }
}

pub struct ExecutionEngine {
    skill_executor: SkillExecutor,
    prompt_cache: StaticPromptCache,
    schema_cache: ToolSchemaCache,
    delta_engine: DeltaContextEngine,
    compressor: SemanticCompressor,
    tracker: TokenTracker,
    /// The calls of this run handed to the skill executor: skill id, input,
    /// prompt text and model.
    calls: Ghost<Seq<(Seq<char>, JsonView, Seq<char>, Seq<char>)>>,
}

/// The budget gate refuses a predicted total against what remains.
pub open spec fn refused(total: int, remaining: u32) -> bool {
    total > u32::MAX || over_budget(total, remaining)
}

/// The predicted size of a call: the token estimates of prompt, delta,
/// memory text and output schema, plus the output limit.
pub fn predicted_total(prompt: &str, delta: &Json, memory_text: &str, schema: &Json, max_output: u32) -> (r: u64)
    ensures
        r == tokens_of(prompt@) + tokens_of(json_text(delta@)) + tokens_of(memory_text@) + tokens_of(
            json_text(schema@),
        ) + max_output,
{
    let delta_tokens = estimate_tokens(to_json_text(delta).as_str());
    let mem_tokens = estimate_memory_tokens(memory_text);
    let schema_tokens = estimate_tokens(to_json_text(schema).as_str());
    let prompt_tokens = estimate_tokens(prompt);
    prompt_tokens as u64 + delta_tokens as u64 + mem_tokens as u64 + schema_tokens as u64 + max_output as u64
}

/// Refuses a call whose predicted size exceeds what remains of the budget
/// by more than a quarter (or does not fit a 32-bit count).
pub fn budget_gate(total: u64, remaining: u32, budget: u32) -> (r: Result<(), ExecutionError>)
    requires
        remaining <= budget,
    ensures
        refused(total as int, remaining) ==> (r matches Err(ExecutionError::BudgetExhausted { used, limit })
            && used == budget - remaining && limit == budget),
        !refused(total as int, remaining) ==> r is Ok,
{
    let slack: u64 = remaining as u64 + (remaining / 4) as u64;
    if total > u32::MAX as u64 || total > slack {
        return Err(ExecutionError::BudgetExhausted { used: budget - remaining, limit: budget });
    }
    Ok(())
}

/// The input of a skill for a delta: `{"input": "start"}` for an empty
/// delta, else the flattened delta.
pub open spec fn input_for(delta: JsonView) -> JsonView {
    match delta {
        JsonView::Object(o) if o.len() > 0 => flattened(delta),
        _ => start_input(),
    }
}

/// The input of a skill: `{"input": "start"}` for an empty delta, else the flattened delta.
pub fn skill_input(delta: &Json) -> (r: Json)
    ensures
        r@ == input_for(delta@),
{
    if delta.is_empty_object() {
        start_value()
    } else {
        flatten_delta(delta)
    }
}

/// The model of a call: `local` for a deterministic skill, else [`select_model`].
pub fn choose_model(skill: &SkillDefinition, budget_remaining: u32, estimated: u32) -> (r: String)
    ensures
        r@ == if skill.execution_mode == SkillExecutionMode::Deterministic {
            "local"@
        } else {
            model_for(budget_remaining, estimated)
        },
{
    if skill.is_deterministic() {
        "local".to_owned()
    } else {
        select_model(budget_remaining, estimated)
    }
}

/// The predicted total of the call for skill `id` when the run has
/// stored `stored`, the prompt is `prompt` and `rem` tokens remain.
pub open spec fn step_total(
    agent: CompiledAgent,
    memory: Seq<MemoryEntry>,
    stored: Map<Seq<char>, JsonView>,
    prompt: Seq<char>,
    rem: u32,
    id: Seq<char>,
) -> int {
    tokens_of(prompt) as int + tokens_of(
        json_text(JsonView::Object(delta_of(stored, node_deps(agent.graph.nodes@, id)))),
    ) as int + (((selected_bytes(memory, agent.memory_tier, rem / 4).len() as usize) / 4) as u32) as int
        + tokens_of(json_text(def_of(agent, id).output_schema.schema@)) as int + def_of(
        agent,
        id,
    ).max_output_tokens as int
}

/// The prompt of skill `id` in a run: the text the prompt cache held for it
/// when the run began, else the agent's instruction.
pub open spec fn run_prompt(agent: CompiledAgent, start: Map<Seq<char>, Seq<char>>, id: Seq<char>) -> Seq<char> {
    if start.contains_key(id) {
        start[id]
    } else {
        agent.system_instruction@
    }
}

/// The `j`-th executed skill passed the budget check: its predicted total,
/// with the outputs of the skills before it, did not exceed what remained.
pub open spec fn step_passed(
    agent: CompiledAgent,
    memory: Seq<MemoryEntry>,
    start: Map<Seq<char>, Seq<char>>,
    stored: Map<Seq<char>, JsonView>,
    recs: Seq<TokenBreakdown>,
    d: Seq<Seq<char>>,
    j: int,
) -> bool {
    let rem = remaining_after(agent.budget, recs.take(j));
    !refused(step_total(agent, memory, stored.restrict(d.take(j).to_set()), run_prompt(agent, start, d[j]), rem, d[j]), rem)
}

/// The call that the `j`-th executed skill hands to the skill executor:
/// its id, the input for its delta (the outputs of the skills before it,
/// restricted to its dependencies), its prompt, and its model (`local` for
/// a deterministic skill, else the model for its predicted total).
pub open spec fn step_call(
    agent: CompiledAgent,
    memory: Seq<MemoryEntry>,
    start: Map<Seq<char>, Seq<char>>,
    stored: Map<Seq<char>, JsonView>,
    recs: Seq<TokenBreakdown>,
    d: Seq<Seq<char>>,
    j: int,
) -> (Seq<char>, JsonView, Seq<char>, Seq<char>) {
    let before = stored.restrict(d.take(j).to_set());
    let rem = remaining_after(agent.budget, recs.take(j));
    let prompt = run_prompt(agent, start, d[j]);
    let total = step_total(agent, memory, before, prompt, rem, d[j]);
    (
        d[j],
        input_for(JsonView::Object(delta_of(before, node_deps(agent.graph.nodes@, d[j])))),
        prompt,
        if def_of(agent, d[j]).execution_mode == SkillExecutionMode::Deterministic {
            "local"@
        } else {
            model_for(rem, total as u32)
        },
    )
}

/// The first `recs.len()` calls are those of the executed skills.
pub open spec fn calls_so_far(
    agent: CompiledAgent,
    memory: Seq<MemoryEntry>,
    start: Map<Seq<char>, Seq<char>>,
    stored: Map<Seq<char>, JsonView>,
    recs: Seq<TokenBreakdown>,
    calls: Seq<(Seq<char>, JsonView, Seq<char>, Seq<char>)>,
) -> bool {
    let d = defined_ids(agent, kahn_order(agent.graph.nodes@));
    &&& calls.len() >= recs.len()
    &&& forall|j: int| 0 <= j < recs.len() ==> #[trigger] calls[j] == step_call(agent, memory, start, stored, recs, d, j)
}

/// The state of a run after it completed `recs.len()` skills: one record
/// per executed skill, in order, with its model (`local` exactly for a
/// deterministic skill) and cost; every executed skill passed the budget
/// check; the stored outputs are exactly those of the executed skills,
/// each the compressed and stripped output of its call; the prompt cache
/// keeps what it held and holds the agent's instruction for new keys.
pub open spec fn run_so_far(
    agent: CompiledAgent,
    memory: Seq<MemoryEntry>,
    start: Map<Seq<char>, Seq<char>>,
    prompts: Map<Seq<char>, Seq<char>>,
    stored: Map<Seq<char>, JsonView>,
    recs: Seq<TokenBreakdown>,
    max: int,
    mapping: Map<Seq<char>, Seq<char>>,
) -> bool {
    let d = defined_ids(agent, kahn_order(agent.graph.nodes@));
    &&& recs.len() <= d.len()
    &&& stored.dom() == d.take(recs.len() as int).to_set()
    &&& forall|j: int| 0 <= j < recs.len() ==> (#[trigger] recs[j]).skill_id@ == d[j]
    &&& forall|j: int|
        0 <= j < recs.len() ==> ((#[trigger] recs[j]).model@ == "local"@ <==> def_of(agent, d[j]).execution_mode
            == SkillExecutionMode::Deterministic)
    &&& forall|j: int| 0 <= j < recs.len() ==> (#[trigger] recs[j]).cost == call_cost(recs[j].total_tokens, recs[j].model@)
    &&& forall|j: int| 0 <= j < recs.len() ==> #[trigger] step_passed(agent, memory, start, stored, recs, d, j)
    &&& forall|id: Seq<char>| #[trigger] stored.contains_key(id) ==> exists|raw: JsonView|
        stored[id] == stripped(def_of(agent, id).output_schema.schema@, compressed(raw, max, mapping))
    &&& forall|id: Seq<char>| #[trigger] start.contains_key(id) ==> prompts.contains_key(id)
    &&& forall|id: Seq<char>| #[trigger] prompts.contains_key(id) ==> prompts[id] == run_prompt(agent, start, id)
}

proof fn lemma_step_kept(
    agent: CompiledAgent,
    memory: Seq<MemoryEntry>,
    start: Map<Seq<char>, Seq<char>>,
    prompts: Map<Seq<char>, Seq<char>>,
    stored_before: Map<Seq<char>, JsonView>,
    stored_after: Map<Seq<char>, JsonView>,
    before: Seq<TokenBreakdown>,
    now: Seq<TokenBreakdown>,
    max: int,
    mapping: Map<Seq<char>, Seq<char>>,
    raw: JsonView,
    d: Seq<Seq<char>>,
    k: int,
)
    requires
        run_so_far(agent, memory, start, prompts, stored_before, before, max, mapping),
        d == defined_ids(agent, kahn_order(agent.graph.nodes@)),
        d.no_duplicates(),
        k == before.len(),
        k < d.len(),
        stored_after == stored_before.insert(
            d[k],
            stripped(def_of(agent, d[k]).output_schema.schema@, compressed(raw, max, mapping)),
        ),
        now.len() == k + 1,
        now.drop_last() == before,
        now[k].skill_id@ == d[k],
        now[k].model@ == "local"@ <==> def_of(agent, d[k]).execution_mode == SkillExecutionMode::Deterministic,
        now[k].cost == call_cost(now[k].total_tokens, now[k].model@),
        !refused(
            step_total(agent, memory, stored_before, run_prompt(agent, start, d[k]), remaining_after(agent.budget, before), d[k]),
            remaining_after(agent.budget, before),
        ),
    ensures
        run_so_far(agent, memory, start, prompts, stored_after, now, max, mapping),
{
    assert(stored_before.dom() == d.take(k).to_set());
    assert(stored_after.dom() =~= d.take(k + 1).to_set()) by {
        assert forall|x: Seq<char>| d.take(k + 1).contains(x) <==> d.take(k).contains(x) || x == d[k] by {
            if d.take(k + 1).contains(x) {
                let q = choose|q: int| 0 <= q < k + 1 && #[trigger] d.take(k + 1)[q] == x;
                if q < k {
                    assert(d.take(k)[q] == x);
                }
            }
            if d.take(k).contains(x) {
                let q = choose|q: int| 0 <= q < k && #[trigger] d.take(k)[q] == x;
                assert(d.take(k + 1)[q] == x);
            }
            if x == d[k] {
                assert(d.take(k + 1)[k] == x);
            }
        }
        assert forall|x: Seq<char>| stored_after.dom().contains(x) <==> d.take(k + 1).to_set().contains(x) by {
            assert(stored_before.dom().contains(x) <==> d.take(k).to_set().contains(x));
            assert(d.take(k).to_set().contains(x) <==> d.take(k).contains(x));
            assert(d.take(k + 1).to_set().contains(x) <==> d.take(k + 1).contains(x));
            assert(stored_after.dom().contains(x) <==> stored_before.dom().contains(x) || x == d[k]);
        }
    }
    assert forall|j: int| 0 <= j < now.len() implies #[trigger] step_passed(agent, memory, start, stored_after, now, d, j) by {
        assert(now.take(j) =~= before.take(j)) by {
            if j < k {
                assert forall|q: int| 0 <= q < j implies now[q] == before[q] by {
                    assert(now.drop_last()[q] == now[q]);
                }
            } else {
                assert(now.take(j) =~= now.drop_last());
            }
        }
        if j < k {
            assert(step_passed(agent, memory, start, stored_before, before, d, j));
            assert(!d.take(j).contains(d[k])) by {
                if d.take(j).contains(d[k]) {
                    let q = choose|q: int| 0 <= q < j && #[trigger] d.take(j)[q] == d[k];
                    assert(d[q] == d[k]);
                }
            }
            assert(stored_after.restrict(d.take(j).to_set()) =~= stored_before.restrict(d.take(j).to_set()));
            assert(now[j] == before[j]) by {
                assert(now.drop_last()[j] == now[j]);
            }
        } else {
            assert(before.take(k) =~= before);
            assert(!d.take(k).contains(d[k])) by {
                if d.take(k).contains(d[k]) {
                    let q = choose|q: int| 0 <= q < k && #[trigger] d.take(k)[q] == d[k];
                    assert(d[q] == d[k]);
                }
            }
            assert(stored_after.restrict(d.take(k).to_set()) =~= stored_before);
        }
    }
    assert forall|j: int| 0 <= j < now.len() implies (#[trigger] now[j]).skill_id@ == d[j]
        && (now[j].model@ == "local"@ <==> def_of(agent, d[j]).execution_mode == SkillExecutionMode::Deterministic)
        && now[j].cost == call_cost(now[j].total_tokens, now[j].model@) by {
        if j < k {
            assert(now.drop_last()[j] == now[j]);
            assert(before[j] == now[j]);
        }
    }
    assert forall|id: Seq<char>| #[trigger] stored_after.contains_key(id) implies exists|raw2: JsonView|
        stored_after[id] == stripped(def_of(agent, id).output_schema.schema@, compressed(raw2, max, mapping)) by {
        if id != d[k] {
            assert(stored_before.contains_key(id));
        }
    }
}

proof fn lemma_calls_kept(
    agent: CompiledAgent,
    memory: Seq<MemoryEntry>,
    start: Map<Seq<char>, Seq<char>>,
    stored_before: Map<Seq<char>, JsonView>,
    stored_after: Map<Seq<char>, JsonView>,
    before: Seq<TokenBreakdown>,
    now: Seq<TokenBreakdown>,
    calls: Seq<(Seq<char>, JsonView, Seq<char>, Seq<char>)>,
    d: Seq<Seq<char>>,
    k: int,
)
    requires
        d == defined_ids(agent, kahn_order(agent.graph.nodes@)),
        d.no_duplicates(),
        k == before.len(),
        k < d.len(),
        stored_before.dom() == d.take(k).to_set(),
        stored_after.dom() == stored_before.dom().insert(d[k]),
        forall|x: Seq<char>| stored_before.contains_key(x) ==> stored_after[x] == stored_before[x],
        now.len() == k + 1,
        now.drop_last() == before,
        calls.len() == k + 1,
        forall|j: int| 0 <= j <= k ==> #[trigger] calls[j] == step_call(agent, memory, start, stored_before, before, d, j),
    ensures
        calls_so_far(agent, memory, start, stored_after, now, calls),
{
    assert forall|j: int| 0 <= j < now.len() implies #[trigger] calls[j] == step_call(agent, memory, start, stored_after, now, d, j) by {
        assert(now.take(j) =~= before.take(j)) by {
            if j < k {
                assert forall|q: int| 0 <= q < j implies now[q] == before[q] by {
                    assert(now.drop_last()[q] == now[q]);
                }
            } else {
                assert(now.take(j) =~= now.drop_last());
                assert(before.take(k) =~= before);
            }
        }
        assert(!d.take(j).contains(d[k])) by {
            if d.take(j).contains(d[k]) {
                let q = choose|q: int| 0 <= q < j && #[trigger] d.take(j)[q] == d[k];
                assert(d[q] == d[k]);
            }
        }
        assert(stored_after.restrict(d.take(j).to_set()) =~= stored_before.restrict(d.take(j).to_set()));
    }
}

/// How a run with a complete order ends: every executed skill as in
/// [`run_so_far`], each having handed the executor its [`step_call`];
/// `Ok` after all defined skills, with the outputs and the report of this run; `BudgetExhausted` exactly when the next defined
/// skill's predicted total exceeds what remains by more than a quarter
/// (before its call); `SkillError` when that call failed after passing.
pub open spec fn ran(
    agent: CompiledAgent,
    memory: Seq<MemoryEntry>,
    start: Map<Seq<char>, Seq<char>>,
    prompts: Map<Seq<char>, Seq<char>>,
    stored: Map<Seq<char>, JsonView>,
    recs: Seq<TokenBreakdown>,
    max: int,
    mapping: Map<Seq<char>, Seq<char>>,
    calls: Seq<(Seq<char>, JsonView, Seq<char>, Seq<char>)>,
    r: Result<ExecutionResult, ExecutionError>,
) -> bool {
    let d = defined_ids(agent, kahn_order(agent.graph.nodes@));
    let k = recs.len() as int;
    let rem = remaining_after(agent.budget, recs);
    &&& run_so_far(agent, memory, start, prompts, stored, recs, max, mapping)
    &&& calls_so_far(agent, memory, start, stored, recs, calls)
    &&& match r {
        Ok(res) => {
            &&& k == d.len()
            &&& calls.len() == k
            &&& outputs_of(res.outputs) == stored
            &&& res.report@ == report_text(recs)
            &&& res.total_tokens == sum_tokens(recs)
            &&& res.total_cost == sum_cost(recs)
        },
        Err(ExecutionError::BudgetExhausted { used, limit }) => {
            &&& k < d.len()
            &&& limit == agent.budget
            &&& used == agent.budget - rem
            &&& calls.len() == k
            &&& refused(step_total(agent, memory, stored, run_prompt(agent, start, d[k]), rem, d[k]), rem)
        },
        Err(ExecutionError::SkillError(_)) => {
            &&& k < d.len()
            &&& calls.len() == k + 1
            &&& calls[k] == step_call(agent, memory, start, stored, recs, d, k)
            &&& !refused(step_total(agent, memory, stored, run_prompt(agent, start, d[k]), rem, d[k]), rem)
        },
        Err(ExecutionError::GraphError(_)) => false,
    }
}

/// What one completed call leaves behind.
pub open spec fn recorded(
    old_records: Seq<TokenBreakdown>,
    new_records: Seq<TokenBreakdown>,
    skill_id: Seq<char>,
    model: Seq<char>,
    parts: (u32, u32, u32, u32),
    usage: TokenUsage,
) -> bool {
    &&& new_records.len() == old_records.len() + 1
    &&& new_records.drop_last() == old_records
    &&& new_records.last().skill_id@ == skill_id
    &&& new_records.last().model@ == model
    &&& new_records.last().prompt_tokens == parts.0
    &&& new_records.last().context_tokens == parts.1
    &&& new_records.last().memory_tokens == parts.2
    &&& new_records.last().schema_tokens == parts.3
    &&& new_records.last().response_tokens == usage.completion_tokens
    &&& new_records.last().total_tokens == usage.total_tokens
    &&& new_records.last().cost == call_cost(usage.total_tokens, model)
}

impl ExecutionEngine {
    pub closed spec fn records(&self) -> Seq<TokenBreakdown> {
        self.tracker.records_view()
    }

    pub closed spec fn prompts(&self) -> Map<Seq<char>, Seq<char>> {
        self.prompt_cache.entries()
    }

    pub closed spec fn schemas(&self) -> Map<u64, Seq<char>> {
        self.schema_cache.entries()
    }

    pub closed spec fn stored(&self) -> Map<Seq<char>, JsonView> {
        self.delta_engine.stored()
    }

    pub closed spec fn compressor_max(&self) -> int {
        self.compressor.max_len()
    }

    pub closed spec fn compressor_mapping(&self) -> Map<Seq<char>, Seq<char>> {
        self.compressor.mapping()
    }

    pub closed spec fn calls(&self) -> Seq<(Seq<char>, JsonView, Seq<char>, Seq<char>)> {
        self.calls@
    }

    pub closed spec fn executor_cache(&self) -> Map<u64, JsonView> {
        self.skill_executor.cache_entries()
    }

    pub fn new(skill_executor: SkillExecutor) -> (r: Self)
        ensures
            r.records() == Seq::<TokenBreakdown>::empty(),
            r.calls().len() == 0,
            r.prompts() == Map::<Seq<char>, Seq<char>>::empty(),
            r.schemas() == Map::<u64, Seq<char>>::empty(),
            r.stored() == Map::<Seq<char>, JsonView>::empty(),
            r.compressor_max() == 200,
            r.compressor_mapping() == Map::<Seq<char>, Seq<char>>::empty(),
            r.executor_cache() == skill_executor.cache_entries(),
    {
        ExecutionEngine {
            skill_executor,
            prompt_cache: StaticPromptCache::new(),
            schema_cache: ToolSchemaCache::new(),
            delta_engine: DeltaContextEngine::new(),
            compressor: SemanticCompressor::new(200),
            tracker: TokenTracker::new(),
            calls: Ghost(Seq::empty()),
        }
    }

    pub fn tracker(&self) -> (r: &TokenTracker)
        ensures
            r.records_view() == self.records(),
    {
        &self.tracker
    }

    /// Settles a completed call: compresses the output, strips what the
    /// output schema does not declare, stores it as the node's output and
    /// as the run's output, and records what the call spent.
    fn record_step(
        &mut self,
        skill_id: &String,
        skill: &SkillDefinition,
        result: SkillExecResult,
        model: &str,
        parts: (u32, u32, u32, u32),
        outputs: &mut OutputMap,
    )
        ensures
            recorded(old(self).records(), final(self).records(), skill_id@, model@, parts, result.usage),
            final(self).stored() == old(self).stored().insert(
                skill_id@,
                stripped(
                    skill.output_schema.schema@,
                    compressed(result.output@, old(self).compressor_max(), old(self).compressor_mapping()),
                ),
            ),
            outputs_of(*final(outputs)) == outputs_of(*old(outputs)).insert(
                skill_id@,
                stripped(
                    skill.output_schema.schema@,
                    compressed(result.output@, old(self).compressor_max(), old(self).compressor_mapping()),
                ),
            ),
            final(self).compressor_max() == old(self).compressor_max(),
            final(self).compressor_mapping() == old(self).compressor_mapping(),
            final(self).prompts() == old(self).prompts(),
            final(self).schemas() == old(self).schemas(),
            final(self).executor_cache() == old(self).executor_cache(),
            final(self).calls() == old(self).calls(),
    {
        let mut compressed_output = self.compressor.compress(&result.output);
        skill.output_schema.strip_unknown_fields(&mut compressed_output);
        self.delta_engine.store(skill_id.as_str(), compressed_output.deep_clone());
        output_map_insert(outputs, skill_id.clone(), compressed_output);
        let usage_total = result.usage.total_tokens;
        let cost = cost_of(usage_total, model);
        self.tracker.record(
            TokenBreakdown {
                skill_id: skill_id.clone(),
                model: model.to_owned(),
                prompt_tokens: parts.0,
                context_tokens: parts.1,
                memory_tokens: parts.2,
                schema_tokens: parts.3,
                response_tokens: result.usage.completion_tokens,
                total_tokens: usage_total,
                cost,
            },
        );
        proof {
            assert(self.tracker.records_view().drop_last() =~= old(self).tracker.records_view());
        }
    }

    /// Runs every skill of the agent that has a definition, in topological
    /// order, and reports the outputs and what was spent. A run starts with
    /// an empty tracker and delta store; the prompt, schema and input caches
    /// are kept. For each skill: its delta, memory text and prompt give a
    /// [`predicted_total`]; [`budget_gate`] may stop the run before the
    /// executor is called; the executor gets [`skill_input`] of the delta,
    /// the cached prompt and the model of [`choose_model`]; [`Self::record_step`]
    /// keeps the output and records the call. A failing skill stops the run.
    pub fn execute(
        &mut self,
        agent: &CompiledAgent,
        memory: &MemoryManager,
        provider: &dyn ModelProvider,
    ) -> (r: Result<ExecutionResult, ExecutionError>)
        ensures
            (r matches Err(ExecutionError::GraphError(m))) <==> kahn_order(agent.graph.nodes@).len()
                != agent.graph.nodes@.len(),
            r matches Err(ExecutionError::GraphError(m)) ==> m@ == graph_error_text(GraphError::CycleDetected),
            kahn_order(agent.graph.nodes@).len() != agent.graph.nodes@.len() ==> final(self).records() == old(
                self,
            ).records() && final(self).calls() == old(self).calls(),
            kahn_order(agent.graph.nodes@).len() == agent.graph.nodes@.len() ==> ran(
                *agent,
                memory.entries_view(),
                old(self).prompts(),
                final(self).prompts(),
                final(self).stored(),
                final(self).records(),
                final(self).compressor_max(),
                final(self).compressor_mapping(),
                final(self).calls(),
                r,
            ),
            final(self).compressor_max() == old(self).compressor_max(),
            final(self).compressor_mapping() == old(self).compressor_mapping(),
    {
        let order = match agent.graph.topological_order() {
            Ok(o) => o,
            Err(e) => {
                let m = e.message();
                return Err(ExecutionError::GraphError(m));
            },
        };
        self.tracker = TokenTracker::new();
        self.delta_engine = DeltaContextEngine::new();
        self.calls = Ghost(Seq::empty());
        let ghost kahn = kahn_order(agent.graph.nodes@);
        let ghost d = defined_ids(*agent, kahn);
        let ghost mem = memory.entries_view();
        let ghost start_prompts = self.prompts();
        proof {
            crate::skill_graph::lemma_kahn_distinct(agent.graph.nodes@);
            lemma_defined_upto(*agent, kahn, 0, kahn.len() as int);
            assert(self.stored().dom() =~= d.take(0).to_set());
        }
        let mut budget_remaining: u32 = agent.budget;
        let mut outputs = output_map_new();
        let mut idx: usize = 0;
        while idx < order.len()
            invariant
                texts(order@) == kahn,
                kahn == kahn_order(agent.graph.nodes@),
                kahn.len() == agent.graph.nodes@.len(),
                kahn.no_duplicates(),
                d == defined_ids(*agent, kahn),
                d.no_duplicates(),
                start_prompts == old(self).prompts(),
                mem == memory.entries_view(),
                idx <= order.len(),
                self.records().len() == defined_upto(*agent, kahn, idx as int).len(),
                d.take(self.records().len() as int) == defined_upto(*agent, kahn, idx as int),
                self.records().len() <= d.len(),
                budget_remaining <= agent.budget,
                budget_remaining == remaining_after(agent.budget, self.records()),
                run_so_far(*agent, mem, start_prompts, self.prompts(), self.stored(), self.records(),
                    self.compressor_max(), self.compressor_mapping()),
                outputs_of(outputs) == self.stored(),
                self.calls().len() == self.records().len(),
                calls_so_far(*agent, mem, start_prompts, self.stored(), self.records(), self.calls()),
                self.compressor_max() == old(self).compressor_max(),
                self.compressor_mapping() == old(self).compressor_mapping(),
            decreases order.len() - idx,
        {
            let skill_id = &order[idx];
            let ghost k = self.records().len() as int;
            proof {
                assert(kahn[idx as int] == skill_id@);
                lemma_defined_upto(*agent, kahn, idx as int + 1, kahn.len() as int);
                lemma_defined_upto(*agent, kahn, idx as int, idx as int + 1);
            }
            let skill = match find_skill(agent, skill_id.as_str()) {
                Some(s) => s,
                None => {
                    idx += 1;
                    continue ;
                },
            };
            proof {
                assert(defined_upto(*agent, kahn, idx as int + 1) == defined_upto(*agent, kahn, idx as int).push(skill_id@));
                assert(d[k] == skill_id@) by {
                    assert(d.take(k + 1) == defined_upto(*agent, kahn, idx as int + 1));
                    assert(d.take(k + 1)[k] == d[k]);
                }
                assert(self.stored() =~= self.stored().restrict(d.take(k).to_set()));
            }
            let ghost stored_before = self.stored();
            let ghost records_before = self.records();
            let deps = node_dependencies(agent, skill_id.as_str());
            let delta = self.delta_engine.compute_delta(deps.as_slice());
            let mem_text = memory.select_and_trim(agent.memory_tier, budget_remaining / 4);
            let schema_hash = ToolSchemaCache::schema_hash(skill_id.as_str());
            let schema_json = to_json_text(&skill.output_schema.schema);
            let _cached_schema = self.schema_cache.get_or_insert(schema_hash, schema_json.as_str());
            let cached_prompt = self.prompt_cache.get_or_compile(
                skill_id.as_str(),
                agent.system_instruction.as_str(),
            );
            proof {
                assert(cached_prompt@ == run_prompt(*agent, start_prompts, skill_id@));
                assert(run_so_far(*agent, mem, start_prompts, self.prompts(), self.stored(), self.records(),
                    self.compressor_max(), self.compressor_mapping()));
            }
            let total64 = predicted_total(
                cached_prompt.as_str(),
                &delta,
                mem_text.as_str(),
                &skill.output_schema.schema,
                skill.max_output_tokens,
            );
            proof {
                assert(total64 == step_total(*agent, mem, stored_before, run_prompt(*agent, start_prompts, skill_id@), budget_remaining, skill_id@));
            }
            match budget_gate(total64, budget_remaining, agent.budget) {
                Ok(()) => {},
                Err(e) => {
                    return Err(e);
                },
            }
            let prompt_tokens = estimate_tokens(cached_prompt.as_str());
            let delta_tokens = estimate_tokens(to_json_text(&delta).as_str());
            let mem_tokens = estimate_memory_tokens(mem_text.as_str());
            let schema_tokens = estimate_tokens(schema_json.as_str());
            let est = PredictiveEstimator::estimate_call(
                prompt_tokens,
                delta_tokens,
                mem_tokens,
                schema_tokens,
                skill.max_output_tokens,
            );
            if est.total > budget_remaining {
                let _suggestions = PredictiveEstimator::suggest_downgrades(&est, budget_remaining);
            }
            let model_name = choose_model(skill, budget_remaining, est.total);
            proof {
                reveal_strlit("local");
                reveal_strlit("gpt-4o");
                reveal_strlit("gpt-4o-mini");
                assert("local"@.len() == 5);
                assert("gpt-4o"@.len() == 6);
                assert("gpt-4o-mini"@.len() == 11);
                assert(model_name@ == "local"@ <==> skill.execution_mode == SkillExecutionMode::Deterministic);
            }
            let ghost mv = model_name@;
            let model: Arc<String> = Arc::new(model_name);
            proof {
                assert(model@ == mv);
            }
            let input = skill_input(&delta);
            proof {
                assert(self.records().take(k) =~= self.records());
                assert(d.take(k).to_set() == self.stored().dom());
                assert(est.total as int == total64 as int);
                assert(input@ == step_call(*agent, mem, start_prompts, self.stored(), self.records(), d, k).1);
                assert(model@ == step_call(*agent, mem, start_prompts, self.stored(), self.records(), d, k).3);
            }
            let ghost this_call = (skill_id@, input@, cached_prompt@, model@);
            let ghost calls_before = self.calls();
            self.calls = Ghost(self.calls@.push(this_call));
            proof {
                assert(this_call == step_call(*agent, mem, start_prompts, self.stored(), self.records(), d, k));
                assert forall|j: int| 0 <= j < self.records().len() implies #[trigger] self.calls()[j]
                    == step_call(*agent, mem, start_prompts, self.stored(), self.records(), d, j) by {
                    assert(self.calls()[j] == calls_before[j]);
                }
            }
            let result = match self.skill_executor.execute(
                skill,
                &input,
                agent.response_mode,
                provider,
                &cached_prompt,
                &model,
            ) {
                Ok(res) => res,
                Err(e) => {
                    let m = e.message();
                    return Err(ExecutionError::SkillError(m));
                },
            };
            let usage_total = result.usage.total_tokens;
            let ghost raw = result.output@;
            self.record_step(
                skill_id,
                skill,
                result,
                model.as_str(),
                (prompt_tokens, delta_tokens, mem_tokens, schema_tokens),
                &mut outputs,
            );
            budget_remaining = budget_remaining.saturating_sub(usage_total);
            proof {
                let now = self.records();
                assert(now.drop_last() == records_before);
                assert(remaining_after(agent.budget, now) == budget_remaining);
                lemma_budget_monotone(agent.budget, now, 0);
                reveal_strlit("local");
                reveal_strlit("gpt-4o");
                reveal_strlit("gpt-4o-mini");
                lemma_step_kept(*agent, mem, start_prompts, self.prompts(), stored_before, self.stored(),
                    records_before, now, self.compressor_max(), self.compressor_mapping(), raw, d, k);
                lemma_calls_kept(*agent, mem, start_prompts, stored_before, self.stored(), records_before, now,
                    self.calls(), d, k);
            }
            idx += 1;
        }
        proof {
            assert(defined_upto(*agent, kahn, idx as int) == d);
        }
        Ok(
            ExecutionResult {
                outputs,
                report: self.tracker.report(),
                total_cost: self.tracker.total_cost(),
                total_tokens: self.tracker.total_tokens(),
            },
        )
    }
}

} // verus!
