//! Compiles a user's agent configuration against a template and the skill
//! definitions into an immutable, validated agent.

use vstd::prelude::*;
use std::sync::Arc;
use crate::agent_template::{AgentTemplate, TemplateRegistry, allows};
use crate::json::same_text;
use crate::memory::MemoryTier;
use crate::skill::{
    ResponseMode, SkillDefinition, first_where, lemma_first_where, lemma_first_where_stable,
    same_definition,
};
use crate::skill_graph::{
    DependencySpec, GraphError, SkillGraph, SkillNode, first_missing_dependency, graph_error_text,
    kahn_order, texts,
};
use crate::token_optimizer::share_text;

verus! {

pub struct UserAgentConfig {
    pub name: String,
    pub base_template: String,
    pub selected_skills: Vec<String>,
    pub memory_tier_override: Option<MemoryTier>,
    pub budget_limit: Option<u32>,
    pub skill_dependencies: Vec<SkillDep>,
}

/// `skill_id` takes `fields` of the output of `depends_on` (all of it when empty).
pub struct SkillDep {
    pub skill_id: String,
    pub depends_on: String,
    pub fields: Vec<String>,
}

pub struct CompiledAgent {
    pub name: String,
    pub template_id: String,
    pub system_instruction: Arc<String>,
    pub response_mode: ResponseMode,
    pub memory_tier: MemoryTier,
    pub budget: u32,
    pub skills: Vec<SkillDefinition>,
    pub graph: SkillGraph,
}

pub enum CompileError {
    TemplateNotFound(String),
    SkillNotAllowed { skill: String, template: String },
    UnknownSkill(String),
    BudgetExceeded { requested: u32, max: u32 },
    GraphError(String),
}

pub struct AgentCompiler;

/// The message of a compile error.
pub open spec fn compile_error_text(e: CompileError) -> Seq<char> {
    match e {
        CompileError::TemplateNotFound(t) => "template not found: "@ + t@,
        CompileError::SkillNotAllowed { skill, template } => "skill not allowed by template: "@ + skill@
            + " not in "@ + template@,
        CompileError::UnknownSkill(s) => "unknown skill: "@ + s@,
        CompileError::BudgetExceeded { requested, max } => "budget exceeds template max: "@
            + crate::token_optimizer::dec_text(requested as nat) + " > "@ + crate::token_optimizer::dec_text(
            max as nat,
        ),
        CompileError::GraphError(m) => "graph validation failed: "@ + m@,
    }
}

impl CompileError {
    pub fn message(&self) -> (r: String)
        ensures
            r@ == compile_error_text(*self),
    {
        match self {
            CompileError::TemplateNotFound(t) => {
                let mut r = "template not found: ".to_owned();
                crate::json::append_text(&mut r, t.as_str());
                r
            },
            CompileError::SkillNotAllowed { skill, template } => {
                let mut r = "skill not allowed by template: ".to_owned();
                crate::json::append_text(&mut r, skill.as_str());
                crate::json::append_text(&mut r, " not in ");
                crate::json::append_text(&mut r, template.as_str());
                r
            },
            CompileError::UnknownSkill(s) => {
                let mut r = "unknown skill: ".to_owned();
                crate::json::append_text(&mut r, s.as_str());
                r
            },
            CompileError::BudgetExceeded { requested, max } => {
                let mut r = "budget exceeds template max: ".to_owned();
                crate::token_optimizer::push_decimal(&mut r, *requested as u128);
                crate::json::append_text(&mut r, " > ");
                crate::token_optimizer::push_decimal(&mut r, *max as u128);
                r
            },
            CompileError::GraphError(m) => {
                let mut r = "graph validation failed: ".to_owned();
                crate::json::append_text(&mut r, m.as_str());
                r
            },
        }
    }
}

/// The dependencies that the configuration gives for skill `s`, as source and fields.
pub open spec fn deps_for(deps: Seq<SkillDep>, s: Seq<char>) -> Seq<(Seq<char>, Seq<Seq<char>>)>
    decreases deps.len(),
{
    if deps.len() == 0 {
        Seq::empty()
    } else {
        let rest = deps_for(deps.drop_last(), s);
        if deps.last().skill_id@ == s {
            rest.push((deps.last().depends_on@, texts(deps.last().fields@)))
        } else {
            rest
        }
    }
}

/// A dependency as source and fields.
pub open spec fn dep_view(d: DependencySpec) -> (Seq<char>, Seq<Seq<char>>) {
    (d.source_skill@, texts(d.fields@))
}

/// The nodes are those of the configuration: one per selected skill, in
/// order, each with the dependencies given for it.
pub open spec fn graph_built(nodes: Seq<SkillNode>, config: UserAgentConfig) -> bool {
    &&& nodes.len() == config.selected_skills@.len()
    &&& forall|i: int| 0 <= i < nodes.len() ==> (#[trigger] nodes[i]).skill_id@ == config.selected_skills@[i]@
        && nodes[i].dependencies@.map_values(|d: DependencySpec| dep_view(d)) == deps_for(
            config.skill_dependencies@,
            config.selected_skills@[i]@,
        )
}

/// The graph of those nodes is invalid, with that error.
pub open spec fn graph_rejects(nodes: Seq<SkillNode>, e: GraphError) -> bool {
    match first_missing_dependency(nodes) {
        Some((skill, missing)) => e matches GraphError::MissingDependency { skill: s, missing: m }
            && s@ == skill && m@ == missing,
        None => kahn_order(nodes).len() != nodes.len() && e is CycleDetected,
    }
}

pub open spec fn graph_accepts(nodes: Seq<SkillNode>) -> bool {
    first_missing_dependency(nodes) is None && kahn_order(nodes).len() == nodes.len()
}

pub open spec fn not_allowed_pred(t: AgentTemplate, sel: Seq<String>) -> spec_fn(int) -> bool {
    |i: int| !allows(t, sel[i]@)
}

pub open spec fn id_pred(defs: Seq<SkillDefinition>, id: Seq<char>) -> spec_fn(int) -> bool {
    |k: int| defs[k].id@ == id
}

/// Index of the first definition with that id.
pub open spec fn def_index(defs: Seq<SkillDefinition>, id: Seq<char>) -> Option<int> {
    first_where(defs.len() as int, id_pred(defs, id))
}

pub open spec fn undefined_pred(defs: Seq<SkillDefinition>, sel: Seq<String>) -> spec_fn(int) -> bool {
    |i: int| def_index(defs, sel[i]@) is None
}

/// The budget asked for, or the template's maximum.
pub open spec fn effective_budget(config: UserAgentConfig, t: AgentTemplate) -> u32 {
    match config.budget_limit {
        Some(b) => b,
        None => t.max_budget,
    }
}

pub open spec fn effective_tier(config: UserAgentConfig, t: AgentTemplate) -> MemoryTier {
    match config.memory_tier_override {
        Some(m) => m,
        None => t.default_memory_tier,
    }
}

/// What compiling against template `t` gives.
pub open spec fn compiled_from(
    r: Result<CompiledAgent, CompileError>,
    config: UserAgentConfig,
    t: AgentTemplate,
    defs: Seq<SkillDefinition>,
) -> bool {
    let sel = config.selected_skills@;
    match first_where(sel.len() as int, not_allowed_pred(t, sel)) {
        Some(i) => r matches Err(CompileError::SkillNotAllowed { skill, template }) && skill@ == sel[i]@
            && template@ == t.id@,
        None => match first_where(sel.len() as int, undefined_pred(defs, sel)) {
            Some(i) => r matches Err(CompileError::UnknownSkill(s)) && s@ == sel[i]@,
            None => if effective_budget(config, t) > t.max_budget {
                r matches Err(CompileError::BudgetExceeded { requested, max }) && requested
                    == effective_budget(config, t) && max == t.max_budget
            } else {
                match r {
                    Ok(a) => {
                        &&& graph_built(a.graph.nodes@, config)
                        &&& graph_accepts(a.graph.nodes@)
                        &&& a.name@ == config.name@
                        &&& a.template_id@ == t.id@
                        &&& a.system_instruction@ == t.system_instruction@
                        &&& a.response_mode == t.response_mode
                        &&& a.memory_tier == effective_tier(config, t)
                        &&& a.budget == effective_budget(config, t)
                        &&& a.skills@.len() == sel.len()
                        &&& forall|i: int|
                            0 <= i < sel.len() ==> same_definition(
                                #[trigger] a.skills@[i],
                                defs[def_index(defs, sel[i]@)->Some_0],
                            )
                    },
                    Err(CompileError::GraphError(m)) => exists|nodes: Seq<SkillNode>, e: GraphError|
                        graph_built(nodes, config) && graph_rejects(nodes, e) && m@ == graph_error_text(e),
                    _ => false,
                }
            },
        },
    }
}

impl AgentCompiler {
    /// Resolves the template, checks that each selected skill is allowed
    /// and defined, settles budget and memory tier, and builds and
    /// validates the skill graph; the first failure is returned.
    pub fn compile(
        config: &UserAgentConfig,
        template_registry: &TemplateRegistry,
        skill_defs: &[SkillDefinition],
    ) -> (r: Result<CompiledAgent, CompileError>)
        ensures
            match template_registry.lookup(config.base_template@) {
                None => r matches Err(CompileError::TemplateNotFound(n)) && n@ == config.base_template@,
                Some(t) => compiled_from(r, *config, t, skill_defs@),
            },
    {
        let template = match template_registry.get(config.base_template.as_str()) {
            Some(t) => t,
            None => {
                return Err(CompileError::TemplateNotFound(config.base_template.clone()));
            },
        };
        let ghost sel = config.selected_skills@;
        let ghost defs = skill_defs@;
        let ghost np = not_allowed_pred(*template, sel);
        let mut i: usize = 0;
        while i < config.selected_skills.len()
            invariant
                template_registry.lookup(config.base_template@) == Some(*template),
                sel == config.selected_skills@,
                np == not_allowed_pred(*template, sel),
                i <= sel.len(),
                first_where(i as int, np) is None,
            decreases config.selected_skills.len() - i,
        {
            if !template.allows_skill(config.selected_skills[i].as_str()) {
                proof {
                    assert(np(i as int));
                    lemma_first_where(i as int, np);
                    assert(first_where(i as int + 1, np) == Some(i as int));
                    lemma_first_where_stable(i as int + 1, sel.len() as int, np);
                }
                return Err(
                    CompileError::SkillNotAllowed {
                        skill: config.selected_skills[i].clone(),
                        template: template.id.clone(),
                    },
                );
            }
            i += 1;
        }
        let ghost up = undefined_pred(defs, sel);
        let mut resolved: Vec<SkillDefinition> = Vec::new();
        let mut i: usize = 0;
        while i < config.selected_skills.len()
            invariant
                template_registry.lookup(config.base_template@) == Some(*template),
                first_where(sel.len() as int, np) is None,
                np == not_allowed_pred(*template, sel),
                sel == config.selected_skills@,
                defs == skill_defs@,
                up == undefined_pred(defs, sel),
                i <= sel.len(),
                first_where(i as int, up) is None,
                resolved@.len() == i,
                forall|k: int| 0 <= k < i ==> (#[trigger] def_index(defs, sel[k]@)) is Some,
                forall|k: int|
                    0 <= k < i ==> same_definition(
                        #[trigger] resolved@[k],
                        defs[def_index(defs, sel[k]@)->Some_0],
                    ),
            decreases config.selected_skills.len() - i,
        {
            match find_definition(skill_defs, config.selected_skills[i].as_str()) {
                Some(d) => {
                    let c = skill_defs[d].copy_definition();
                    let ghost before = resolved@;
                    resolved.push(c);
                    proof {
                        assert(!up(i as int));
                        assert(def_index(defs, sel[i as int]@) == Some(d as int));
                        assert(same_definition(resolved@[i as int], defs[d as int]));
                        assert forall|k: int| 0 <= k < i + 1 implies def_index(defs, sel[k]@) is Some
                            && same_definition(#[trigger] resolved@[k], defs[def_index(defs, sel[k]@)->Some_0]) by {
                            if k < i {
                                assert(resolved@[k] == before[k]);
                                assert(def_index(defs, sel[k]@) is Some && same_definition(before[k], defs[def_index(defs, sel[k]@)->Some_0]));
                            }
                        }
                    }
                },
                None => {
                    proof {
                        assert(up(i as int));
                        lemma_first_where(i as int, up);
                        assert(first_where(i as int + 1, up) == Some(i as int));
                        lemma_first_where_stable(i as int + 1, sel.len() as int, up);
                    }
                    return Err(CompileError::UnknownSkill(config.selected_skills[i].clone()));
                },
            }
            i += 1;
        }
        let effective_budget = match config.budget_limit {
            Some(b) => b,
            None => template.max_budget,
        };
        if effective_budget > template.max_budget {
            return Err(
                CompileError::BudgetExceeded { requested: effective_budget, max: template.max_budget },
            );
        }
        let memory_tier = match config.memory_tier_override {
            Some(m) => m,
            None => template.default_memory_tier,
        };
        let graph = match Self::build_graph(config) {
            Ok(g) => g,
            Err(e) => {
                return Err(e);
            },
        };
        Ok(
            CompiledAgent {
                name: config.name.clone(),
                template_id: template.id.clone(),
                system_instruction: share_text(&template.system_instruction),
                response_mode: template.response_mode,
                memory_tier,
                budget: effective_budget,
                skills: resolved,
                graph,
            },
        )
    }

    /// One node per selected skill with the dependencies given for it; the
    /// graph is validated.
    fn build_graph(config: &UserAgentConfig) -> (r: Result<SkillGraph, CompileError>)
        ensures
            match r {
                Ok(g) => graph_built(g.nodes@, *config) && graph_accepts(g.nodes@),
                Err(CompileError::GraphError(m)) => exists|nodes: Seq<SkillNode>, e: GraphError|
                    graph_built(nodes, *config) && graph_rejects(nodes, e) && m@ == graph_error_text(e),
                _ => false,
            },
    {
        let mut nodes: Vec<SkillNode> = Vec::new();
        let mut i: usize = 0;
        while i < config.selected_skills.len()
            invariant
                i <= config.selected_skills@.len(),
                nodes@.len() == i,
                forall|k: int| 0 <= k < i ==> (#[trigger] nodes@[k]).skill_id@ == config.selected_skills@[k]@
                    && nodes@[k].dependencies@.map_values(|d: DependencySpec| dep_view(d)) == deps_for(
                        config.skill_dependencies@,
                        config.selected_skills@[k]@,
                    ),
            decreases config.selected_skills.len() - i,
        {
            let skill_id = &config.selected_skills[i];
            let deps = dependencies_of(config, skill_id.as_str());
            nodes.push(SkillNode { skill_id: skill_id.clone(), dependencies: deps });
            i += 1;
        }
        let graph = SkillGraph::new(nodes);
        proof {
            assert(graph_built(graph.nodes@, *config));
        }
        match graph.validate() {
            Ok(()) => {
                proof {
                    assert(first_missing_dependency(graph.nodes@) is None);
                    assert(graph_accepts(graph.nodes@));
                }
                Ok(graph)
            },
            Err(e) => {
                let m = e.message();
                proof {
                    assert(graph_built(graph.nodes@, *config) && graph_rejects(graph.nodes@, e)
                        && m@ == graph_error_text(e));
                }
                Err(CompileError::GraphError(m))
            },
        }
    }
}

/// The dependencies that the configuration gives for `skill_id`, in order.
fn dependencies_of(config: &UserAgentConfig, skill_id: &str) -> (r: Vec<DependencySpec>)
    ensures
        r@.map_values(|d: DependencySpec| dep_view(d)) == deps_for(config.skill_dependencies@, skill_id@),
{
    let ghost all = config.skill_dependencies@;
    let mut out: Vec<DependencySpec> = Vec::new();
    let mut i: usize = 0;
    proof {
        assert(out@.map_values(|d: DependencySpec| dep_view(d)) =~= deps_for(all.take(0), skill_id@));
    }
    while i < config.skill_dependencies.len()
        invariant
            all == config.skill_dependencies@,
            i <= all.len(),
            out@.map_values(|d: DependencySpec| dep_view(d)) == deps_for(all.take(i as int), skill_id@),
        decreases config.skill_dependencies.len() - i,
    {
        proof {
            assert(all.take(i as int + 1).drop_last() =~= all.take(i as int));
        }
        let d = &config.skill_dependencies[i];
        if same_text(d.skill_id.as_str(), skill_id) {
            let ghost before = out@;
            let fields = copy_texts(&d.fields);
            out.push(DependencySpec { source_skill: d.depends_on.clone(), fields });
            proof {
                assert(out@.map_values(|d: DependencySpec| dep_view(d)) =~= before.map_values(
                    |d: DependencySpec| dep_view(d),
                ).push((all[i as int].depends_on@, texts(all[i as int].fields@))));
            }
        }
        i += 1;
    }
    proof {
        assert(all.take(i as int) =~= all);
    }
    out
}

/// A copy of a list of texts.
pub(crate) fn copy_texts(v: &Vec<String>) -> (r: Vec<String>)
    ensures
        texts(r@) == texts(v@),
{
    let mut out: Vec<String> = Vec::new();
    let mut i: usize = 0;
    while i < v.len()
        invariant
            i <= v.len(),
            texts(out@) == texts(v@).take(i as int),
        decreases v.len() - i,
    {
        let ghost before = out@;
        out.push(v[i].clone());
        proof {
            assert(texts(out@) =~= texts(before).push(v@[i as int]@));
            assert(texts(v@).take(i as int + 1) =~= texts(v@).take(i as int).push(v@[i as int]@));
        }
        i += 1;
    }
    proof {
        assert(texts(v@).take(i as int) =~= texts(v@));
    }
    out
}

/// Index of the first definition with id `id`.
pub(crate) fn find_definition(defs: &[SkillDefinition], id: &str) -> (r: Option<usize>)
    ensures
        match def_index(defs@, id@) {
            Some(k) => r is Some && r->Some_0 as int == k,
            None => r is None,
        },
        r matches Some(k) ==> k < defs@.len(),
{
    let ghost p = id_pred(defs@, id@);
    let mut k: usize = 0;
    while k < defs.len()
        invariant
            p == id_pred(defs@, id@),
            k <= defs@.len(),
            first_where(k as int, p) is None,
        decreases defs.len() - k,
    {
        if same_text(defs[k].id.as_str(), id) {
            proof {
                assert(p(k as int));
                lemma_first_where(k as int, p);
                assert(first_where(k as int + 1, p) == Some(k as int));
                lemma_first_where_stable(k as int + 1, defs@.len() as int, p);
            }
            return Some(k);
        }
        k += 1;
    }
    None
}

} // verus!
