//! The contract of a language-model provider, and the cost table.

use vstd::prelude::*;
use std::sync::Arc;
use crate::json::same_text;

verus! {

/// One model call.
pub struct LLMRequest {
    pub system_prompt: Arc<String>,
    pub user_content: String,
    pub max_tokens: u32,
    pub model: Arc<String>,
}

#[derive(Debug, Clone, Copy, PartialEq, Eq, Structural)]
pub struct TokenUsage {
    pub prompt_tokens: u32,
    pub completion_tokens: u32,
    pub total_tokens: u32,
}

impl Default for TokenUsage {
    fn default() -> (r: Self)
        ensures
            r.prompt_tokens == 0,
            r.completion_tokens == 0,
            r.total_tokens == 0,
    {
        TokenUsage { prompt_tokens: 0, completion_tokens: 0, total_tokens: 0 }
    }
}

/// What a provider answered.
pub struct ModelResponse {
    pub content: String,
    pub usage: TokenUsage,
    pub model: Arc<String>,
}

pub enum ProviderError {
    CallFailed(String),
    InvalidResponse(String),
    BudgetExceeded { used: u32, limit: u32 },
}

/// The message of a provider error.
pub open spec fn provider_error_text(e: ProviderError) -> Seq<char> {
    match e {
        ProviderError::CallFailed(m) => "model call failed: "@ + m@,
        ProviderError::InvalidResponse(m) => "invalid response: "@ + m@,
        ProviderError::BudgetExceeded { used, limit } => "budget exceeded: used "@ + crate::token_optimizer::dec_text(
            used as nat,
        ) + ", limit "@ + crate::token_optimizer::dec_text(limit as nat),
    }
}

impl ProviderError {
    pub fn message(&self) -> (r: String)
        ensures
            r@ == provider_error_text(*self),
    {
        match self {
            ProviderError::CallFailed(m) => {
                let mut r = "model call failed: ".to_owned();
                crate::json::append_text(&mut r, m.as_str());
                r
            },
            ProviderError::InvalidResponse(m) => {
                let mut r = "invalid response: ".to_owned();
                crate::json::append_text(&mut r, m.as_str());
                r
            },
            ProviderError::BudgetExceeded { used, limit } => {
                let mut r = "budget exceeded: used ".to_owned();
                crate::token_optimizer::push_decimal(&mut r, *used as u128);
                crate::json::append_text(&mut r, ", limit ");
                crate::token_optimizer::push_decimal(&mut r, *limit as u128);
                r
            },
        }
    }
}

/// A language model behind some transport; implemented by the embedding program.
pub trait ModelProvider {
    fn call_model(&self, request: LLMRequest) -> Result<ModelResponse, ProviderError>;
}

/// Price of 1000 tokens of a model, in billionths of a US dollar
/// (an unknown model is priced as `gpt-4o`).
pub open spec fn cost_rate(model: Seq<char>) -> u64 {
    if model == "gpt-4o"@ {
        5_000_000
    } else if model == "gpt-4o-mini"@ {
        150_000
    } else if model == "gpt-4-turbo"@ {
        10_000_000
    } else if model == "gpt-3.5-turbo"@ {
        500_000
    } else {
        5_000_000
    }
}

/// Price of 1000 tokens of a model, in billionths of a US dollar.
pub fn model_cost_per_1k(model: &str) -> (r: u64)
    ensures
        r == cost_rate(model@),
{
    if same_text(model, "gpt-4o") {
        5_000_000
    } else if same_text(model, "gpt-4o-mini") {
        150_000
    } else if same_text(model, "gpt-4-turbo") {
        10_000_000
    } else if same_text(model, "gpt-3.5-turbo") {
        500_000
    } else {
        5_000_000
    }
}

} // verus!
