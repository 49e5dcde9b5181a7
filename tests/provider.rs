use agenthub_runtime::provider::{model_cost_per_1k, ProviderError};

#[test]
fn cost_lookup() {
    // Rates are kept in billionths of a dollar per 1000 tokens.
    assert!((model_cost_per_1k("gpt-4o") as f64 / 1e9 - 0.005).abs() < f64::EPSILON);
    assert!((model_cost_per_1k("gpt-4o-mini") as f64 / 1e9 - 0.00015).abs() < f64::EPSILON);
    assert!((model_cost_per_1k("unknown") as f64 / 1e9 - 0.005).abs() < f64::EPSILON);
}

#[test]
fn cost_table_exact_rates() {
    assert_eq!(model_cost_per_1k("gpt-4o"), 5_000_000);
    assert_eq!(model_cost_per_1k("gpt-4o-mini"), 150_000);
    assert_eq!(model_cost_per_1k("gpt-4-turbo"), 10_000_000);
    assert_eq!(model_cost_per_1k("gpt-3.5-turbo"), 500_000);
    assert_eq!(model_cost_per_1k("local"), 5_000_000);
}

#[test]
fn provider_error_messages() {
    assert_eq!(ProviderError::CallFailed("down".into()).message(), "model call failed: down");
    assert_eq!(ProviderError::InvalidResponse("bad".into()).message(), "invalid response: bad");
    assert_eq!(
        ProviderError::BudgetExceeded { used: 120, limit: 100 }.message(),
        "budget exceeded: used 120, limit 100"
    );
}
