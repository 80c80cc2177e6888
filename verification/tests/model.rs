use ai_monitor::model::{BreakdownUsage, Usage};

#[test]
fn calculates_token_totals() {
    let usage = Usage {
        input_tokens: 10,
        output_tokens: 20,
        reasoning_tokens: 30,
        cache_read_tokens: 40,
        cache_write_tokens: 50,
        ..Usage::default()
    };

    assert_eq!(usage.active_tokens(), 60);
    assert_eq!(usage.all_tokens(), 150);
}

#[test]
fn breakdown_addition_saturates() {
    let mut breakdown = BreakdownUsage { input_tokens: u64::MAX - 1, ..BreakdownUsage::default() };
    let usage = Usage { messages: 1, input_tokens: 5, output_tokens: 2, ..Usage::default() };
    breakdown.add_usage(&usage);
    assert_eq!(breakdown.input_tokens, u64::MAX);
    assert_eq!(breakdown.output_tokens, 2);
    assert_eq!(breakdown.calls, 1);
    assert_eq!(breakdown.sessions, 0);
}

#[test]
fn usage_addition_adds_every_field() {
    let mut total = Usage { messages: 1, input_tokens: 1, ..Usage::default() };
    total.add_assign(&Usage { messages: 2, input_tokens: 3, output_tokens: 4, reasoning_tokens: 5, cache_read_tokens: 6, cache_write_tokens: 7 });
    assert_eq!(total, Usage { messages: 3, input_tokens: 4, output_tokens: 4, reasoning_tokens: 5, cache_read_tokens: 6, cache_write_tokens: 7 });
}
