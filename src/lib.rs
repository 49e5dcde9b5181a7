//! A budget-governed agent execution runtime: compiles an agent configuration
//! into a skill graph and runs it against a model provider.

pub mod agent_compiler;
pub mod agent_template;
pub mod execution_engine;
pub mod hash_maps;
pub mod json;
pub mod memory;
pub mod provider;
pub mod skill;
pub mod skill_executor;
pub mod skill_graph;
pub mod token_optimizer;
