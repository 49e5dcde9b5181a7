//! Named agent templates: which skills an agent may use, its defaults and budget.

use vstd::prelude::*;
use std::sync::Arc;
use crate::hash_maps::{TemplateMap, template_map_get, template_map_ids, template_map_insert, template_map_new, templates_of};
use crate::json::{Json, same_text};
use crate::memory::MemoryTier;
use crate::skill::ResponseMode;
use crate::skill_graph::texts;

verus! {

pub struct AgentTemplate {
    pub id: String,
    pub allowed_skills: Vec<String>,
    pub default_memory_tier: MemoryTier,
    pub response_mode: ResponseMode,
    pub max_budget: u32,
    pub system_instruction: Arc<String>,
    pub output_schema: Json,
}

/// True when `skill_id` is among the template's allowed skills.
pub open spec fn allows(t: AgentTemplate, skill_id: Seq<char>) -> bool {
    texts(t.allowed_skills@).contains(skill_id)
}

/// Templates by id; registering an id again replaces the template.
pub struct TemplateRegistry {
    templates: TemplateMap,
}

impl AgentTemplate {
    /// True when `skill_id` is among the allowed skills.
    pub fn allows_skill(&self, skill_id: &str) -> (r: bool)
        ensures
            r == allows(*self, skill_id@),
    {
        let mut i: usize = 0;
        while i < self.allowed_skills.len()
            invariant
                i <= self.allowed_skills.len(),
                forall|k: int| 0 <= k < i ==> self.allowed_skills@[k]@ != skill_id@,
            decreases self.allowed_skills.len() - i,
        {
            if same_text(self.allowed_skills[i].as_str(), skill_id) {
                proof {
                    assert(texts(self.allowed_skills@)[i as int] == skill_id@);
                }
                return true;
            }
            i += 1;
        }
        proof {
            if allows(*self, skill_id@) {
                let k = choose|k: int| 0 <= k < texts(self.allowed_skills@).len() && texts(self.allowed_skills@)[k] == skill_id@;
                assert(self.allowed_skills@[k]@ == skill_id@);
            }
        }
        false
    }
}

impl TemplateRegistry {
    pub closed spec fn entries(&self) -> Map<Seq<char>, AgentTemplate> {
        templates_of(self.templates)
    }

    /// The template registered under `id`, if any.
    pub open spec fn lookup(&self, id: Seq<char>) -> Option<AgentTemplate> {
        if self.entries().contains_key(id) {
            Some(self.entries()[id])
        } else {
            None
        }
    }

    pub fn new() -> (r: Self)
        ensures
            r.entries() == Map::<Seq<char>, AgentTemplate>::empty(),
    {
        let r = TemplateRegistry { templates: template_map_new() };
        proof {
            assert(r.entries() =~= Map::<Seq<char>, AgentTemplate>::empty());
        }
        r
    }

    pub fn register(&mut self, template: AgentTemplate)
        ensures
            final(self).entries() == old(self).entries().insert(template.id@, template),
    {
        let id = template.id.clone();
        template_map_insert(&mut self.templates, id, template);
    }

    pub fn get(&self, id: &str) -> (r: Option<&AgentTemplate>)
        ensures
            match self.lookup(id@) {
                Some(t) => r is Some && *r->Some_0 == t,
                None => r is None,
            },
    {
        template_map_get(&self.templates, id)
    }

    pub fn skill_allowed(&self, template_id: &str, skill_id: &str) -> (r: bool)
        ensures
            r == (match self.lookup(template_id@) {
                Some(t) => allows(t, skill_id@),
                None => false,
            }),
    {
        match self.get(template_id) {
            Some(t) => t.allows_skill(skill_id),
            None => false,
        }
    }

    /// The registered ids, each once, in the map's order.
    pub fn list_ids(&self) -> (r: Vec<String>)
        ensures
            texts(r@).no_duplicates(),
            texts(r@).to_set() == self.entries().dom(),
    {
        template_map_ids(&self.templates)
    }
}

} // verus!
