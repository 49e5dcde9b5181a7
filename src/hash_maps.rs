//! The ahash maps that hold the runtime's integer-keyed caches, with what
//! each map holds named over plain values.

use vstd::prelude::*;
use std::sync::Arc;
use ahash::AHashMap;
use crate::agent_template::AgentTemplate;
use crate::json::{Json, JsonView};
use crate::skill_executor::DeterministicHandler;
use crate::skill_graph::texts;

verus! {

/// ahash's `AHashMap`, a `std::collections::HashMap` with ahash's hasher.
#[verifier::external_type_specification]
#[verifier::external_body]
#[verifier::reject_recursive_types(K)]
#[verifier::reject_recursive_types(V)]
#[verifier::reject_recursive_types(S)]
pub struct ExAHashMap<K, V, S>(AHashMap<K, V, S>);

/// ahash's `RandomState`, the hasher builder of an `AHashMap`.
#[verifier::external_type_specification]
#[verifier::external_body]
pub struct ExRandomState(ahash::RandomState);

/// Schema texts by a hash of the skill id.
pub type SchemaMap = AHashMap<u64, Arc<String>>;

/// Outputs by a hash of skill id and input text.
pub type InputMap = AHashMap<u64, Json>;

/// Templates by id.
pub type TemplateMap = AHashMap<String, AgentTemplate>;

/// The templates that a template map holds, by id.
pub uninterp spec fn templates_of(m: TemplateMap) -> Map<Seq<char>, AgentTemplate>;

/// Deterministic handlers by skill id.
pub type HandlerMap = AHashMap<String, Box<dyn DeterministicHandler>>;

/// The skill ids that a handler map has handlers for.
pub uninterp spec fn handler_keys(m: HandlerMap) -> Set<Seq<char>>;

/// Shared prompt texts by key.
pub type PromptMap = AHashMap<String, Arc<String>>;

/// The texts that a prompt map holds, by key.
pub uninterp spec fn prompt_texts(m: PromptMap) -> Map<Seq<char>, Seq<char>>;

/// Key renamings of the compressor.
pub type KeyMap = AHashMap<String, String>;

/// The renamings that a key map holds.
pub uninterp spec fn renamings(m: KeyMap) -> Map<Seq<char>, Seq<char>>;

/// JSON values by node or skill id.
pub type OutputMap = AHashMap<String, Json>;

/// The values that an output map holds, by id.
pub uninterp spec fn outputs_of(m: OutputMap) -> Map<Seq<char>, JsonView>;

/// The texts that a schema map holds, by key.
pub uninterp spec fn schema_texts(m: SchemaMap) -> Map<u64, Seq<char>>;

/// The values that an input cache map holds, by key.
pub uninterp spec fn cached_values(m: InputMap) -> Map<u64, JsonView>;

/// Relies on `AHashMap::new`: a map without entries.
#[verifier::external_body]
pub(crate) fn schema_map_new() -> (r: SchemaMap)
    ensures
        schema_texts(r).dom() == Set::<u64>::empty(),
{
    AHashMap::new()
}

/// Relies on `AHashMap::get`: the entry under `k`, if there is one.
#[verifier::external_body]
pub(crate) fn schema_map_get(m: &SchemaMap, k: u64) -> (r: Option<&Arc<String>>)
    ensures
        schema_texts(*m).contains_key(k) == (r is Some),
        r matches Some(v) ==> v@ == schema_texts(*m)[k],
{
    m.get(&k)
}

/// Relies on `AHashMap::insert`: `k` maps to `v` afterwards, other keys are unchanged.
#[verifier::external_body]
pub(crate) fn schema_map_insert(m: &mut SchemaMap, k: u64, v: Arc<String>)
    ensures
        schema_texts(*final(m)) == schema_texts(*old(m)).insert(k, v@),
{
    m.insert(k, v);
}

/// Relies on `AHashMap::new`: a map without entries.
#[verifier::external_body]
pub(crate) fn input_map_new() -> (r: InputMap)
    ensures
        cached_values(r).dom() == Set::<u64>::empty(),
{
    AHashMap::new()
}

/// Relies on `AHashMap::get`: the entry under `k`, if there is one.
#[verifier::external_body]
pub(crate) fn input_map_get(m: &InputMap, k: u64) -> (r: Option<&Json>)
    ensures
        cached_values(*m).contains_key(k) == (r is Some),
        r matches Some(v) ==> v@ == cached_values(*m)[k],
{
    m.get(&k)
}

/// Relies on `AHashMap::insert`: `k` maps to `v` afterwards, other keys are unchanged.
#[verifier::external_body]
pub(crate) fn input_map_insert(m: &mut InputMap, k: u64, v: Json)
    ensures
        cached_values(*final(m)) == cached_values(*old(m)).insert(k, v@),
{
    m.insert(k, v);
}

/// Relies on `AHashMap::new`: a map without entries.
#[verifier::external_body]
pub(crate) fn template_map_new() -> (r: TemplateMap)
    ensures
        templates_of(r).dom() == Set::<Seq<char>>::empty(),
{
    AHashMap::new()
}

/// Relies on `AHashMap::get` (a `String` key looked up by `str`): the entry under `k`, if there is one.
#[verifier::external_body]
pub(crate) fn template_map_get<'a>(m: &'a TemplateMap, k: &str) -> (r: Option<&'a AgentTemplate>)
    ensures
        templates_of(*m).contains_key(k@) == (r is Some),
        r matches Some(t) ==> *t == templates_of(*m)[k@],
{
    m.get(k)
}

/// Relies on `AHashMap::insert`: `k` maps to `v` afterwards, other keys are unchanged.
#[verifier::external_body]
pub(crate) fn template_map_insert(m: &mut TemplateMap, k: String, v: AgentTemplate)
    ensures
        templates_of(*final(m)) == templates_of(*old(m)).insert(k@, v),
{
    m.insert(k, v);
}

/// Relies on `AHashMap::keys`: each key once, in the map's own order.
#[verifier::external_body]
pub(crate) fn template_map_ids(m: &TemplateMap) -> (r: Vec<String>)
    ensures
        texts(r@).no_duplicates(),
        texts(r@).to_set() == templates_of(*m).dom(),
{
    m.keys().cloned().collect()
}

/// Relies on `AHashMap::new`: a map without entries.
#[verifier::external_body]
pub(crate) fn handler_map_new() -> (r: HandlerMap)
    ensures
        handler_keys(r) == Set::<Seq<char>>::empty(),
{
    AHashMap::new()
}

/// Relies on `AHashMap::get` (a `String` key looked up by `str`): the handler under `k`, if there is one.
#[verifier::external_body]
pub(crate) fn handler_map_get<'a>(m: &'a HandlerMap, k: &str) -> (r: Option<&'a Box<dyn DeterministicHandler>>)
    ensures
        handler_keys(*m).contains(k@) == (r is Some),
{
    m.get(k)
}

/// Relies on `AHashMap::insert`: `k` has a handler afterwards, other keys are unchanged.
#[verifier::external_body]
pub(crate) fn handler_map_insert(m: &mut HandlerMap, k: String, v: Box<dyn DeterministicHandler>)
    ensures
        handler_keys(*final(m)) == handler_keys(*old(m)).insert(k@),
{
    m.insert(k, v);
}

/// Relies on `AHashMap::new`: a map without entries.
#[verifier::external_body]
pub(crate) fn prompt_map_new() -> (r: PromptMap)
    ensures
        prompt_texts(r).dom() == Set::<Seq<char>>::empty(),
{
    AHashMap::new()
}

/// Relies on `AHashMap::get` (a `String` key looked up by `str`): the entry under `k`, if there is one.
#[verifier::external_body]
pub(crate) fn prompt_map_get<'a>(m: &'a PromptMap, k: &str) -> (r: Option<&'a Arc<String>>)
    ensures
        prompt_texts(*m).contains_key(k@) == (r is Some),
        r matches Some(t) ==> t@ == prompt_texts(*m)[k@],
{
    m.get(k)
}

/// Relies on `AHashMap::insert`: `k` maps to `v` afterwards, other keys are unchanged.
#[verifier::external_body]
pub(crate) fn prompt_map_insert(m: &mut PromptMap, k: String, v: Arc<String>)
    ensures
        prompt_texts(*final(m)) == prompt_texts(*old(m)).insert(k@, v@),
{
    m.insert(k, v);
}

/// Relies on `AHashMap::new`: a map without entries.
#[verifier::external_body]
pub(crate) fn key_map_new() -> (r: KeyMap)
    ensures
        renamings(r).dom() == Set::<Seq<char>>::empty(),
{
    AHashMap::new()
}

/// Relies on `AHashMap::get` (a `String` key looked up by `str`): the entry under `k`, if there is one.
#[verifier::external_body]
pub(crate) fn key_map_get<'a>(m: &'a KeyMap, k: &str) -> (r: Option<&'a String>)
    ensures
        renamings(*m).contains_key(k@) == (r is Some),
        r matches Some(t) ==> t@ == renamings(*m)[k@],
{
    m.get(k)
}

/// Relies on `AHashMap::insert`: `k` maps to `v` afterwards, other keys are unchanged.
#[verifier::external_body]
pub(crate) fn key_map_insert(m: &mut KeyMap, k: String, v: String)
    ensures
        renamings(*final(m)) == renamings(*old(m)).insert(k@, v@),
{
    m.insert(k, v);
}

/// Relies on `AHashMap::new`: a map without entries.
#[verifier::external_body]
pub fn output_map_new() -> (r: OutputMap)
    ensures
        outputs_of(r).dom() == Set::<Seq<char>>::empty(),
{
    AHashMap::new()
}

/// Relies on `AHashMap::get` (a `String` key looked up by `str`): the entry under `k`, if there is one.
#[verifier::external_body]
pub fn output_map_get<'a>(m: &'a OutputMap, k: &str) -> (r: Option<&'a Json>)
    ensures
        outputs_of(*m).contains_key(k@) == (r is Some),
        r matches Some(v) ==> v@ == outputs_of(*m)[k@],
{
    m.get(k)
}

/// Relies on `AHashMap::insert`: `k` maps to `v` afterwards, other keys are unchanged.
#[verifier::external_body]
pub fn output_map_insert(m: &mut OutputMap, k: String, v: Json)
    ensures
        outputs_of(*final(m)) == outputs_of(*old(m)).insert(k@, v@),
{
    m.insert(k, v);
}

} // verus!
