//! Token accounting: estimates, caches, the delta engine, the compressor and the tracker.

use vstd::prelude::*;
use std::hash::{Hash, Hasher};
use std::sync::Arc;
use crate::hash_maps::{
    KeyMap, OutputMap, SchemaMap, key_map_get, key_map_insert, key_map_new, output_map_get, output_map_insert,
    output_map_new, outputs_of, renamings, PromptMap, prompt_map_get, prompt_map_insert, prompt_map_new, prompt_texts, schema_map_get,
    schema_map_insert, schema_map_new, schema_texts,
};
use vstd::utf8::{decode_utf8, encode_utf8};
use crate::json::{
    Json, JsonView, field_get, field_insert, fields_view, lemma_view_fields, lemma_view_items,
    first_index, lemma_first_index, lookup, view_of, with_field,
};
use crate::memory::{cut_point, safe_truncate};
use crate::skill_graph::{text_less, text_lt, texts};
use crate::skill::{first_where, lemma_first_where, lemma_first_where_stable};

verus! {

/// Rough token count of a text: a quarter of its length in UTF-8 bytes
/// (truncated to 32 bits, as the count is kept in a `u32`).
pub open spec fn tokens_of(t: Seq<char>) -> u32 {
    ((vstd::utf8::encode_utf8(t).len() as usize) / 4) as u32
}

/// Rough token count of a text: one token per four bytes.
pub fn estimate_tokens(s: &str) -> (r: u32)
    ensures
        r == tokens_of(s@),
{
    let n: usize = s.len() / 4;
    #[verifier::truncate]
    (n as u32)
}

} // verus!

verus! {

/// The predicted size of one model call.
#[derive(Debug, Clone, Copy, PartialEq, Eq, Structural)]
pub struct TokenEstimate {
    pub prompt: u32,
    pub context: u32,
    pub memory: u32,
    pub schema: u32,
    pub expected_response: u32,
    pub total: u32,
}

/// A way to bring a call within budget.
#[derive(Debug, Clone, Copy, PartialEq, Eq, Structural)]
pub enum DowngradeSuggestion {
    TrimMemory { target: u32 },
    ReduceContext { target: u32 },
    DowngradeModel,
}

pub struct PredictiveEstimator;

/// Saturating subtraction.
pub open spec fn sat_sub(a: u32, b: u32) -> u32 {
    if a >= b {
        (a - b) as u32
    } else {
        0
    }
}

/// The suggestions for an estimate that exceeds `budget`, in order.
pub open spec fn downgrades(est: TokenEstimate, budget: u32) -> Seq<DowngradeSuggestion> {
    if est.total <= budget {
        Seq::empty()
    } else {
        let over = (est.total - budget) as u32;
        let trim: Seq<DowngradeSuggestion> = if est.memory > 0 {
            seq![DowngradeSuggestion::TrimMemory { target: sat_sub(est.memory, over) }]
        } else {
            Seq::empty()
        };
        let reduce: Seq<DowngradeSuggestion> = if est.context > over / 2 {
            seq![DowngradeSuggestion::ReduceContext { target: sat_sub(est.context, (over / 2) as u32) }]
        } else {
            Seq::empty()
        };
        trim + reduce + seq![DowngradeSuggestion::DowngradeModel]
    }
}

impl PredictiveEstimator {
    /// Collects the parts of a call; the total is their sum.
    pub fn estimate_call(
        prompt_tokens: u32,
        context_tokens: u32,
        memory_tokens: u32,
        schema_tokens: u32,
        max_response: u32,
    ) -> (r: TokenEstimate)
        requires
            prompt_tokens + context_tokens + memory_tokens + schema_tokens + max_response <= u32::MAX,
        ensures
            r.prompt == prompt_tokens,
            r.context == context_tokens,
            r.memory == memory_tokens,
            r.schema == schema_tokens,
            r.expected_response == max_response,
            r.total == prompt_tokens + context_tokens + memory_tokens + schema_tokens + max_response,
    {
        let total = prompt_tokens + context_tokens + memory_tokens + schema_tokens + max_response;
        TokenEstimate {
            prompt: prompt_tokens,
            context: context_tokens,
            memory: memory_tokens,
            schema: schema_tokens,
            expected_response: max_response,
            total,
        }
    }

    /// Nothing when the estimate fits the budget; otherwise, with
    /// `over = total - budget`: trim memory (if any is used), reduce
    /// context (if it exceeds `over / 2`), and always a cheaper model.
    pub fn suggest_downgrades(est: &TokenEstimate, budget: u32) -> (r: Vec<DowngradeSuggestion>)
        ensures
            r@ == downgrades(*est, budget),
    {
        let mut suggestions: Vec<DowngradeSuggestion> = Vec::new();
        if est.total <= budget {
            proof {
                assert(suggestions@ =~= downgrades(*est, budget));
            }
            return suggestions;
        }
        let over = est.total - budget;
        if est.memory > 0 {
            suggestions.push(DowngradeSuggestion::TrimMemory { target: est.memory.saturating_sub(over) });
        }
        if est.context > over / 2 {
            suggestions.push(
                DowngradeSuggestion::ReduceContext { target: est.context.saturating_sub(over / 2) },
            );
        }
        suggestions.push(DowngradeSuggestion::DowngradeModel);
        proof {
            assert(suggestions@ =~= downgrades(*est, budget));
        }
        suggestions
    }
}

/// What one skill call spent. `cost` is in billionths of a US dollar.
pub struct TokenBreakdown {
    pub skill_id: String,
    pub model: String,
    pub prompt_tokens: u32,
    pub context_tokens: u32,
    pub memory_tokens: u32,
    pub schema_tokens: u32,
    pub response_tokens: u32,
    pub total_tokens: u32,
    pub cost: u64,
}

impl Default for TokenBreakdown {
    fn default() -> (r: Self)
        ensures
            r.skill_id@ == Seq::<char>::empty(),
            r.model@ == Seq::<char>::empty(),
            r.prompt_tokens == 0,
            r.context_tokens == 0,
            r.memory_tokens == 0,
            r.schema_tokens == 0,
            r.response_tokens == 0,
            r.total_tokens == 0,
            r.cost == 0,
    {
        TokenBreakdown {
            skill_id: String::new(),
            model: String::new(),
            prompt_tokens: 0,
            context_tokens: 0,
            memory_tokens: 0,
            schema_tokens: 0,
            response_tokens: 0,
            total_tokens: 0,
            cost: 0,
        }
    }
}

/// Σ total_tokens over the records.
pub open spec fn sum_tokens(records: Seq<TokenBreakdown>) -> nat
    decreases records.len(),
{
    if records.len() == 0 {
        0
    } else {
        sum_tokens(records.drop_last()) + records.last().total_tokens as nat
    }
}

/// Σ cost over the records.
pub open spec fn sum_cost(records: Seq<TokenBreakdown>) -> nat
    decreases records.len(),
{
    if records.len() == 0 {
        0
    } else {
        sum_cost(records.drop_last()) + records.last().cost as nat
    }
}

proof fn lemma_sums_bounded(records: Seq<TokenBreakdown>)
    ensures
        sum_tokens(records) <= records.len() * (u32::MAX as nat),
        sum_cost(records) <= records.len() * (u64::MAX as nat),
    decreases records.len(),
{
    if records.len() > 0 {
        lemma_sums_bounded(records.drop_last());
        assert((records.len() - 1) * (u32::MAX as nat) + u32::MAX as nat == records.len() * (u32::MAX as nat)) by (nonlinear_arith);
        assert((records.len() - 1) * (u64::MAX as nat) + u64::MAX as nat == records.len() * (u64::MAX as nat)) by (nonlinear_arith);
    }
}

/// The sums over records grow by each appended record: the totals a
/// tracker reports are the sums of what it recorded.
pub proof fn lemma_report_sums(records: Seq<TokenBreakdown>, b: TokenBreakdown)
    ensures
        sum_tokens(records.push(b)) == sum_tokens(records) + b.total_tokens,
        sum_cost(records.push(b)) == sum_cost(records) + b.cost,
{
    assert(records.push(b).drop_last() =~= records);
}

/// The decimal text of a digit.
pub open spec fn digit_text(d: nat) -> Seq<char> {
    if d == 0 { "0"@ }
    else if d == 1 { "1"@ }
    else if d == 2 { "2"@ }
    else if d == 3 { "3"@ }
    else if d == 4 { "4"@ }
    else if d == 5 { "5"@ }
    else if d == 6 { "6"@ }
    else if d == 7 { "7"@ }
    else if d == 8 { "8"@ }
    else { "9"@ }
}

/// The decimal text of a number, without leading zeros.
pub open spec fn dec_text(n: nat) -> Seq<char>
    decreases n,
{
    if n < 10 {
        digit_text(n)
    } else {
        dec_text(n / 10) + digit_text(n % 10)
    }
}

/// An amount in billionths of a dollar, as dollars with six decimals
/// (rounded half up).
pub open spec fn money_text(nanos: nat) -> Seq<char> {
    let m = (nanos + 500) / 1000;
    let f = m % 1_000_000;
    dec_text(m / 1_000_000) + "."@ + digit_text(f / 100000 % 10) + digit_text(f / 10000 % 10)
        + digit_text(f / 1000 % 10) + digit_text(f / 100 % 10) + digit_text(f / 10 % 10)
        + digit_text(f % 10)
}

fn digit_str(d: u128) -> (r: &'static str)
    requires
        d < 10,
    ensures
        r@ == digit_text(d as nat),
{
    if d == 0 { "0" }
    else if d == 1 { "1" }
    else if d == 2 { "2" }
    else if d == 3 { "3" }
    else if d == 4 { "4" }
    else if d == 5 { "5" }
    else if d == 6 { "6" }
    else if d == 7 { "7" }
    else if d == 8 { "8" }
    else { "9" }
}

/// Appends the decimal text of `n`.
pub fn push_decimal(out: &mut String, n: u128)
    ensures
        final(out)@ == old(out)@ + dec_text(n as nat),
    decreases n,
{
    if n >= 10 {
        push_decimal(out, n / 10);
    }
    crate::json::append_text(out, digit_str(n % 10));
    proof {
        if n >= 10 {
            assert(old(out)@ + dec_text(n as nat) =~= old(out)@ + dec_text((n / 10) as nat) + digit_text((n % 10) as nat));
        }
    }
}

/// Appends an amount in billionths of a dollar as dollars with six decimals.
pub fn push_money(out: &mut String, nanos: u128)
    requires
        nanos <= u128::MAX - 500,
    ensures
        final(out)@ == old(out)@ + money_text(nanos as nat),
{
    let m = (nanos + 500) / 1000;
    let f = m % 1_000_000;
    let mut text = String::new();
    push_decimal(&mut text, m / 1_000_000);
    proof {
        assert(Seq::<char>::empty() + dec_text((m / 1_000_000) as nat) =~= dec_text((m / 1_000_000) as nat));
    }
    crate::json::append_text(&mut text, ".");
    crate::json::append_text(&mut text, digit_str(f / 100000 % 10));
    crate::json::append_text(&mut text, digit_str(f / 10000 % 10));
    crate::json::append_text(&mut text, digit_str(f / 1000 % 10));
    crate::json::append_text(&mut text, digit_str(f / 100 % 10));
    crate::json::append_text(&mut text, digit_str(f / 10 % 10));
    crate::json::append_text(&mut text, digit_str(f % 10));
    crate::json::append_text(out, text.as_str());
}

/// The report line of one record.
pub open spec fn record_line(r: TokenBreakdown) -> Seq<char> {
    "  ["@ + r.skill_id@ + "] model="@ + r.model@ + " prompt="@ + dec_text(r.prompt_tokens as nat)
        + " ctx="@ + dec_text(r.context_tokens as nat) + " mem="@ + dec_text(r.memory_tokens as nat)
        + " schema="@ + dec_text(r.schema_tokens as nat) + " resp="@ + dec_text(r.response_tokens as nat)
        + " total="@ + dec_text(r.total_tokens as nat) + " cost=$"@ + money_text(r.cost as nat) + "\n"@
}

pub open spec fn record_lines(records: Seq<TokenBreakdown>) -> Seq<char>
    decreases records.len(),
{
    if records.len() == 0 {
        Seq::empty()
    } else {
        record_lines(records.drop_last()) + record_line(records.last())
    }
}

/// The tracker's report: a totals line, then one line per record.
pub open spec fn report_text(records: Seq<TokenBreakdown>) -> Seq<char> {
    "Total cost: $"@ + money_text(sum_cost(records)) + " | Total tokens: "@ + dec_text(sum_tokens(records))
        + "\n"@ + record_lines(records)
}

/// Appends the report line of one record.
#[verifier::rlimit(40)]
fn push_record_line(out: &mut String, r: &TokenBreakdown)
    ensures
        final(out)@ == old(out)@ + record_line(*r),
{
    let mut line = String::new();
    crate::json::append_text(&mut line, "  [");
    proof {
        assert(Seq::<char>::empty() + "  ["@ =~= "  ["@);
    }
    crate::json::append_text(&mut line, r.skill_id.as_str());
    crate::json::append_text(&mut line, "] model=");
    crate::json::append_text(&mut line, r.model.as_str());
    crate::json::append_text(&mut line, " prompt=");
    push_decimal(&mut line, r.prompt_tokens as u128);
    crate::json::append_text(&mut line, " ctx=");
    push_decimal(&mut line, r.context_tokens as u128);
    crate::json::append_text(&mut line, " mem=");
    push_decimal(&mut line, r.memory_tokens as u128);
    crate::json::append_text(&mut line, " schema=");
    push_decimal(&mut line, r.schema_tokens as u128);
    crate::json::append_text(&mut line, " resp=");
    push_decimal(&mut line, r.response_tokens as u128);
    crate::json::append_text(&mut line, " total=");
    push_decimal(&mut line, r.total_tokens as u128);
    crate::json::append_text(&mut line, " cost=$");
    push_money(&mut line, r.cost as u128);
    crate::json::append_text(&mut line, "\n");
    crate::json::append_text(out, line.as_str());
}

/// Accumulates per-call breakdowns during a run.
pub struct TokenTracker {
    records: Vec<TokenBreakdown>,
}

impl TokenTracker {
    pub closed spec fn records_view(&self) -> Seq<TokenBreakdown> {
        self.records@
    }

    pub fn new() -> (r: Self)
        ensures
            r.records_view() == Seq::<TokenBreakdown>::empty(),
    {
        TokenTracker { records: Vec::new() }
    }

    pub fn record(&mut self, breakdown: TokenBreakdown)
        ensures
            final(self).records_view() == old(self).records_view().push(breakdown),
    {
        self.records.push(breakdown);
    }

    /// Σ cost of the records, in billionths of a dollar.
    pub fn total_cost(&self) -> (r: u128)
        ensures
            r == sum_cost(self.records_view()),
    {
        let mut sum: u128 = 0;
        let mut i: usize = 0;
        while i < self.records.len()
            invariant
                i <= self.records.len(),
                sum == sum_cost(self.records@.take(i as int)),
            decreases self.records.len() - i,
        {
            proof {
                assert(self.records@.take(i as int + 1).drop_last() =~= self.records@.take(i as int));
                lemma_sums_bounded(self.records@.take(i as int));
                assert(i * (u64::MAX as nat) + u64::MAX as nat <= (usize::MAX as nat + 1) * (u64::MAX as nat)) by (nonlinear_arith)
                    requires i < usize::MAX;
            }
            sum = sum + self.records[i].cost as u128;
            i += 1;
        }
        proof {
            assert(self.records@.take(i as int) =~= self.records@);
        }
        sum
    }

    /// Σ total_tokens of the records.
    pub fn total_tokens(&self) -> (r: u128)
        ensures
            r == sum_tokens(self.records_view()),
    {
        let mut sum: u128 = 0;
        let mut i: usize = 0;
        while i < self.records.len()
            invariant
                i <= self.records.len(),
                sum == sum_tokens(self.records@.take(i as int)),
            decreases self.records.len() - i,
        {
            proof {
                assert(self.records@.take(i as int + 1).drop_last() =~= self.records@.take(i as int));
                lemma_sums_bounded(self.records@.take(i as int));
                assert(i * (u32::MAX as nat) + u32::MAX as nat <= (usize::MAX as nat + 1) * (u32::MAX as nat)) by (nonlinear_arith)
                    requires i < usize::MAX;
            }
            sum = sum + self.records[i].total_tokens as u128;
            i += 1;
        }
        proof {
            assert(self.records@.take(i as int) =~= self.records@);
        }
        sum
    }

    /// A text report: a totals line, then one line per record.
    pub fn report(&self) -> (r: String)
        ensures
            r@ == report_text(self.records_view()),
    {
        let mut out = String::new();
        crate::json::append_text(&mut out, "Total cost: $");
        let count = self.records.len();
        let cost = self.total_cost();
        proof {
            let n = count as nat;
            lemma_sums_bounded(self.records@);
            assert(n * (u64::MAX as nat) <= (usize::MAX as nat) * (u64::MAX as nat)) by (nonlinear_arith)
                requires n <= usize::MAX;
        }
        push_money(&mut out, cost);
        crate::json::append_text(&mut out, " | Total tokens: ");
        push_decimal(&mut out, self.total_tokens());
        crate::json::append_text(&mut out, "\n");
        let ghost head = out@;
        let mut i: usize = 0;
        while i < self.records.len()
            invariant
                i <= self.records.len(),
                out@ == head + record_lines(self.records@.take(i as int)),
            decreases self.records.len() - i,
        {
            let ghost before = out@;
            push_record_line(&mut out, &self.records[i]);
            proof {
                assert(self.records@.take(i as int + 1).drop_last() =~= self.records@.take(i as int));
                assert(out@ =~= before + record_line(self.records@[i as int]));
            }
            i += 1;
        }
        proof {
            assert(self.records@.take(i as int) =~= self.records@);
        }
        out
    }

    pub fn records(&self) -> (r: &[TokenBreakdown])
        ensures
            r@ == self.records_view(),
    {
        self.records.as_slice()
    }
}

} // verus!

verus! {

/// Relies on `Arc::clone` of std: a second handle to the same text.
#[verifier::external_body]
pub fn share_text(a: &Arc<String>) -> (r: Arc<String>)
    ensures
        r@ == a@,
{
    Arc::clone(a)
}

/// Installs a text once per key and hands out shared handles to it.
pub struct StaticPromptCache {
    cache: PromptMap,
}

impl StaticPromptCache {
    pub closed spec fn entries(&self) -> Map<Seq<char>, Seq<char>> {
        prompt_texts(self.cache)
    }

    pub fn new() -> (r: Self)
        ensures
            r.entries() == Map::<Seq<char>, Seq<char>>::empty(),
    {
        let r = StaticPromptCache { cache: prompt_map_new() };
        proof {
            assert(r.entries() =~= Map::<Seq<char>, Seq<char>>::empty());
        }
        r
    }

    /// The text installed under `key`; the first call for a key installs
    /// `raw`, later calls ignore their `raw`.
    pub fn get_or_compile(&mut self, key: &str, raw: &str) -> (r: Arc<String>)
        ensures
            old(self).entries().contains_key(key@) ==> r@ == old(self).entries()[key@]
                && final(self).entries() == old(self).entries(),
            !old(self).entries().contains_key(key@) ==> r@ == raw@
                && final(self).entries() == old(self).entries().insert(key@, raw@),
    {
        match prompt_map_get(&self.cache, key) {
            Some(t) => {
                return share_text(t);
            },
            None => {},
        }
        let text = Arc::new(raw.to_owned());
        let r = share_text(&text);
        prompt_map_insert(&mut self.cache, key.to_owned(), text);
        r
    }
}

/// Schema texts keyed by a hash of the skill id.
pub struct ToolSchemaCache {
    cache: SchemaMap,
}

impl ToolSchemaCache {
    pub closed spec fn entries(&self) -> Map<u64, Seq<char>> {
        schema_texts(self.cache)
    }

    pub fn new() -> (r: Self)
        ensures
            r.entries() == Map::<u64, Seq<char>>::empty(),
    {
        let r = ToolSchemaCache { cache: schema_map_new() };
        proof {
            assert(r.entries() =~= Map::<u64, Seq<char>>::empty());
        }
        r
    }

    /// The text stored under `hash`; the first call for a hash stores `schema_json`.
    pub fn get_or_insert(&mut self, hash: u64, schema_json: &str) -> (r: Arc<String>)
        ensures
            old(self).entries().contains_key(hash) ==> r@ == old(self).entries()[hash]
                && final(self).entries() == old(self).entries(),
            !old(self).entries().contains_key(hash) ==> r@ == schema_json@
                && final(self).entries() == old(self).entries().insert(hash, schema_json@),
    {
        match schema_map_get(&self.cache, hash) {
            Some(t) => {
                return share_text(t);
            },
            None => {},
        }
        let text = Arc::new(schema_json.to_owned());
        let r = share_text(&text);
        schema_map_insert(&mut self.cache, hash, text);
        r
    }

    /// Relies on ahash's `AHasher` (through `Hash for str`): a 64-bit hash
    /// of the skill id. Its keys are drawn once per process, so nothing is
    /// stated of the value.
    #[verifier::external_body]
    pub fn schema_hash(skill_id: &str) -> u64 {
        let mut hasher = ahash::AHasher::default();
        skill_id.hash(&mut hasher);
        hasher.finish()
    }
}

/// The fields of an object named by `fields`, in that order, as far as it has them.
pub open spec fn pick_fields(o: Seq<(Seq<char>, JsonView)>, fields: Seq<Seq<char>>) -> Seq<(Seq<char>, JsonView)>
    decreases fields.len(),
{
    if fields.len() == 0 {
        Seq::empty()
    } else {
        let acc = pick_fields(o, fields.drop_last());
        match lookup(o, fields.last()) {
            Some(v) => with_field(acc, fields.last(), v),
            None => acc,
        }
    }
}

pub open spec fn later_pred(o: Seq<(Seq<char>, JsonView)>, k: Seq<char>) -> spec_fn(int) -> bool {
    |i: int| text_lt(k, o[i].0)
}

/// `o` with field `k` set to `v`: a present key takes the value in place;
/// a new key goes before the first key that sorts after it, so an object
/// built this way keeps its keys in ascending order.
pub open spec fn with_field_sorted(o: Seq<(Seq<char>, JsonView)>, k: Seq<char>, v: JsonView) -> Seq<
    (Seq<char>, JsonView),
> {
    match first_index(o, k) {
        Some(i) => o.update(i, (k, v)),
        None => match first_where(o.len() as int, later_pred(o, k)) {
            Some(p) => o.insert(p, (k, v)),
            None => o.push((k, v)),
        },
    }
}

/// Sets field `key` as [`with_field_sorted`] says.
pub fn field_insert_sorted(fields: &mut Vec<(String, Json)>, key: String, value: Json)
    ensures
        fields_view(final(fields)@) == with_field_sorted(fields_view(old(fields)@), key@, value@),
{
    let ghost fv = fields_view(fields@);
    proof {
        lemma_first_index(fv, key@);
    }
    if field_get(fields, key.as_str()).is_some() {
        field_insert(fields, key, value);
        return ;
    }
    let ghost p = later_pred(fv, key@);
    let mut i: usize = 0;
    while i < fields.len()
        invariant
            i <= fields.len(),
            fields@ == old(fields)@,
            fv == fields_view(fields@),
            first_index(fv, key@) is None,
            p == later_pred(fv, key@),
            first_where(i as int, p) is None,
        decreases fields.len() - i,
    {
        if text_less(key.as_str(), fields[i].0.as_str()) {
            proof {
                assert(p(i as int));
                lemma_first_where(i as int, p);
                assert(first_where(i as int + 1, p) == Some(i as int));
                lemma_first_where_stable(i as int + 1, fv.len() as int, p);
            }
            let ghost kv = key@;
            let ghost vv = value@;
            fields.insert(i, (key, value));
            proof {
                assert(fields_view(fields@) =~= fv.insert(i as int, (kv, vv)));
            }
            return ;
        }
        i += 1;
    }
    let ghost kv = key@;
    let ghost vv = value@;
    fields.push((key, value));
    proof {
        assert(fields_view(fields@) =~= fv.push((kv, vv)));
    }
}

/// The dependency list as texts: source id and field names.
pub open spec fn deps_view(deps: Seq<(String, Vec<String>)>) -> Seq<(Seq<char>, Seq<Seq<char>>)> {
    deps.map_values(|d: (String, Vec<String>)| (d.0@, texts(d.1@)))
}

/// The delta object for `deps` over the stored outputs, its keys in
/// ascending order of source id: per source that has an output, the whole output (no fields named) or the named fields
/// that it has (when it is an object).
pub open spec fn delta_of(stored: Map<Seq<char>, JsonView>, deps: Seq<(Seq<char>, Seq<Seq<char>>)>) -> Seq<(Seq<char>, JsonView)>
    decreases deps.len(),
{
    if deps.len() == 0 {
        Seq::empty()
    } else {
        let acc = delta_of(stored, deps.drop_last());
        let id = deps.last().0;
        let fields = deps.last().1;
        match (if stored.contains_key(id) { Some(stored[id]) } else { None }) {
            None => acc,
            Some(out) => if fields.len() == 0 {
                with_field_sorted(acc, id, out)
            } else {
                match out {
                    JsonView::Object(o) => with_field_sorted(acc, id, JsonView::Object(pick_fields(o, fields))),
                    _ => acc,
                }
            },
        }
    }
}

/// The outputs of completed nodes, and the deltas built from them.
pub struct DeltaContextEngine {
    stored_outputs: OutputMap,
}

impl DeltaContextEngine {
    pub closed spec fn stored(&self) -> Map<Seq<char>, JsonView> {
        outputs_of(self.stored_outputs)
    }

    pub fn new() -> (r: Self)
        ensures
            r.stored() == Map::<Seq<char>, JsonView>::empty(),
    {
        let r = DeltaContextEngine { stored_outputs: output_map_new() };
        proof {
            assert(r.stored() =~= Map::<Seq<char>, JsonView>::empty());
        }
        r
    }

    /// Records the output of a node (replacing an earlier one).
    pub fn store(&mut self, node_id: &str, output: Json)
        ensures
            final(self).stored() == old(self).stored().insert(node_id@, output@),
    {
        output_map_insert(&mut self.stored_outputs, node_id.to_owned(), output);
    }

    /// The delta object for a node's dependencies (source id, field names).
    pub fn compute_delta(&self, deps: &[(String, Vec<String>)]) -> (r: Json)
        ensures
            r@ == JsonView::Object(delta_of(self.stored(), deps_view(deps@))),
    {
        let ghost dv = deps_view(deps@);
        let mut result: Vec<(String, Json)> = Vec::new();
        let mut i: usize = 0;
        while i < deps.len()
            invariant
                i <= deps.len(),
                dv == deps_view(deps@),
                fields_view(result@) == delta_of(self.stored(), dv.take(i as int)),
            decreases deps.len() - i,
        {
            proof {
                assert(dv.take(i as int + 1).drop_last() =~= dv.take(i as int));
            }
            let node_id = &deps[i].0;
            let fields = &deps[i].1;
            match output_map_get(&self.stored_outputs, node_id.as_str()) {
                Some(output) => {
                    if fields.len() == 0 {
                        field_insert_sorted(&mut result, node_id.clone(), output.deep_clone());
                    } else if let Json::Object(obj) = output {
                        proof {
                            lemma_view_fields(*obj);
                        }
                        let ghost fv = texts(fields@);
                        let mut extracted: Vec<(String, Json)> = Vec::new();
                        let mut j: usize = 0;
                        while j < fields.len()
                            invariant
                                j <= fields.len(),
                                fv == texts(fields@),
                                fields_view(extracted@) == pick_fields(fields_view(obj@), fv.take(j as int)),
                            decreases fields.len() - j,
                        {
                            proof {
                                assert(fv.take(j as int + 1).drop_last() =~= fv.take(j as int));
                            }
                            match field_get(obj, fields[j].as_str()) {
                                Some(val) => {
                                    field_insert(&mut extracted, fields[j].clone(), val.deep_clone());
                                },
                                None => {},
                            }
                            j += 1;
                        }
                        proof {
                            assert(fv.take(j as int) =~= fv);
                        }
                        let sub = Json::Object(extracted);
                        proof {
                            lemma_view_fields(extracted);
                        }
                        field_insert_sorted(&mut result, node_id.clone(), sub);
                    }
                },
                None => {},
            }
            i += 1;
        }
        proof {
            assert(dv.take(i as int) =~= dv);
        }
        let r = Json::Object(result);
        proof {
            lemma_view_fields(result);
        }
        r
    }
}

/// A text cut to at most `max` bytes on a character boundary.
pub open spec fn truncated_text(s: Seq<char>, max: int) -> Seq<char> {
    decode_utf8(encode_utf8(s).subrange(0, cut_point(encode_utf8(s), max)))
}

/// A key after renaming through the mapping (kept when it has no entry).
pub open spec fn renamed(k: Seq<char>, mapping: Map<Seq<char>, Seq<char>>) -> Seq<char> {
    if mapping.contains_key(k) {
        mapping[k]
    } else {
        k
    }
}

/// Fields set one after the other, a later one replacing an earlier one of the same key.
pub open spec fn set_all(pairs: Seq<(Seq<char>, JsonView)>) -> Seq<(Seq<char>, JsonView)>
    decreases pairs.len(),
{
    if pairs.len() == 0 {
        Seq::empty()
    } else {
        with_field(set_all(pairs.drop_last()), pairs.last().0, pairs.last().1)
    }
}

/// Each field of an object with its key renamed and its value compressed.
pub open spec fn compressed_fields(o: Seq<(Seq<char>, JsonView)>, max: int, mapping: Map<Seq<char>, Seq<char>>) -> Seq<(Seq<char>, JsonView)>
    decreases o,
{
    Seq::new(
        o.len(),
        |i: int|
            if 0 <= i < o.len() {
                (renamed(o[i].0, mapping), compressed(o[i].1, max, mapping))
            } else {
                (Seq::empty(), JsonView::Null)
            },
    )
}

/// The compressed form of a value: keys renamed, long strings cut to
/// `max` bytes, recursively; other values unchanged.
pub open spec fn compressed(v: JsonView, max: int, mapping: Map<Seq<char>, Seq<char>>) -> JsonView
    decreases v,
{
    match v {
        JsonView::Object(o) => JsonView::Object(set_all(compressed_fields(o, max, mapping))),
        JsonView::Array(a) => JsonView::Array(
            Seq::new(a.len(), |i: int| if 0 <= i < a.len() { compressed(a[i], max, mapping) } else { JsonView::Null }),
        ),
        JsonView::Str(s) => if encode_utf8(s).len() > max {
            JsonView::Str(truncated_text(s, max))
        } else {
            v
        },
        _ => v,
    }
}

/// A text cut to at most `max` bytes on a character boundary.
pub fn safe_truncate_string(s: &str, max: usize) -> (r: String)
    ensures
        r@ == truncated_text(s@, max as int),
{
    let t = safe_truncate(s, max);
    proof {
        broadcast use vstd::utf8::encode_utf8_decode_utf8;
        assert(decode_utf8(encode_utf8(t@)) == t@);
    }
    t.to_owned()
}

/// Shrinks values: renames object keys and cuts long strings.
pub struct SemanticCompressor {
    max_string_len: usize,
    key_mapping: KeyMap,
}

impl SemanticCompressor {
    pub closed spec fn max_len(&self) -> int {
        self.max_string_len as int
    }

    pub closed spec fn mapping(&self) -> Map<Seq<char>, Seq<char>> {
        renamings(self.key_mapping)
    }

    pub fn new(max_string_len: usize) -> (r: Self)
        ensures
            r.max_len() == max_string_len,
            r.mapping() == Map::<Seq<char>, Seq<char>>::empty(),
    {
        let r = SemanticCompressor { max_string_len, key_mapping: key_map_new() };
        proof {
            assert(r.mapping() =~= Map::<Seq<char>, Seq<char>>::empty());
        }
        r
    }

    /// Renames `from` to `to` in later compressions (replacing an earlier mapping of `from`).
    pub fn add_key_mapping(&mut self, from: &str, to: &str)
        ensures
            final(self).max_len() == old(self).max_len(),
            final(self).mapping() == old(self).mapping().insert(from@, to@),
    {
        key_map_insert(&mut self.key_mapping, from.to_owned(), to.to_owned());
    }

    fn rename(&self, k: &String) -> (r: String)
        ensures
            r@ == renamed(k@, self.mapping()),
    {
        match key_map_get(&self.key_mapping, k.as_str()) {
            Some(t) => t.clone(),
            None => k.clone(),
        }
    }

    pub fn compress(&self, value: &Json) -> (r: Json)
        ensures
            r@ == compressed(value@, self.max_len(), self.mapping()),
        decreases value,
    {
        match value {
            Json::Object(o) => {
                let ghost pairs = Seq::new(
                    o@.len(),
                    |i: int| (renamed(o@[i].0@, self.mapping()), compressed(view_of(o@[i].1), self.max_len(), self.mapping())),
                );
                let mut out: Vec<(String, Json)> = Vec::new();
                let mut i: usize = 0;
                while i < o.len()
                    invariant
                        *value == Json::Object(*o),
                        i <= o.len(),
                        pairs.len() == o@.len(),
                        forall|k: int| 0 <= k < o@.len() ==> #[trigger] pairs[k] == (renamed(o@[k].0@, self.mapping()), compressed(view_of(o@[k].1), self.max_len(), self.mapping())),
                        fields_view(out@) == set_all(pairs.take(i as int)),
                    decreases o.len() - i,
                {
                    proof {
                        assert(decreases_to!(*value => (*value)->Object_0));
                        assert(decreases_to!(*o => o@));
                        assert(decreases_to!(o@ => o@[i as int]));
                        assert(pairs.take(i as int + 1).drop_last() =~= pairs.take(i as int));
                    }
                    let key = self.rename(&o[i].0);
                    let val = self.compress(&o[i].1);
                    field_insert(&mut out, key, val);
                    i += 1;
                }
                let r = Json::Object(out);
                proof {
                    assert(pairs.take(i as int) =~= pairs);
                    lemma_view_fields(out);
                    lemma_view_fields(*o);
                    let ov = fields_view(o@);
                    assert(compressed_fields(ov, self.max_len(), self.mapping()) =~= pairs);
                }
                r
            },
            Json::Array(a) => {
                let mut out: Vec<Json> = Vec::new();
                let mut i: usize = 0;
                while i < a.len()
                    invariant
                        *value == Json::Array(*a),
                        i <= a.len(),
                        out.len() == i,
                        forall|k: int| 0 <= k < i ==> view_of(#[trigger] out[k]) == compressed(view_of(a[k]), self.max_len(), self.mapping()),
                    decreases a.len() - i,
                {
                    proof {
                        assert(decreases_to!(*value => (*value)->Array_0));
                        assert(decreases_to!(*a => a@));
                        assert(decreases_to!(a@ => a@[i as int]));
                    }
                    let c = self.compress(&a[i]);
                    out.push(c);
                    i += 1;
                }
                let r = Json::Array(out);
                proof {
                    lemma_view_items(out);
                    lemma_view_items(*a);
                    assert(r@->Array_0 =~= compressed(value@, self.max_len(), self.mapping())->Array_0);
                }
                r
            },
            Json::Str(s) => {
                if crate::memory::byte_len(s.as_str()) > self.max_string_len {
                    Json::Str(safe_truncate_string(s.as_str(), self.max_string_len))
                } else {
                    value.deep_clone()
                }
            },
            _ => value.deep_clone(),
        }
    }
}

} // verus!
