use bonolith::llm::{
    gbnf_string_literal, logprob_to_score, ScoreReply, ScorerLatch, TokenLogprob, NEUTRAL_SCORE,
};

#[test]
fn gbnf_literal_wraps_and_escapes() {
    assert_eq!(gbnf_string_literal("箸"), "root ::= \"箸\"");
    // Backslashes and quotes must be escaped so the grammar stays valid.
    assert_eq!(gbnf_string_literal("a\"b\\c"), "root ::= \"a\\\"b\\\\c\"");
}

/// The score of a mean log-probability, both as plain numbers.
fn score(logprob: f64) -> f64 {
    logprob_to_score((logprob * 1e9) as i64) as f64 / 1e9
}

#[test]
fn logprob_score_is_monotonic_and_banded() {
    assert!(score(-4.0) > score(-8.0));
    assert!(score(-8.0) > score(-12.0));
    assert!((score(0.0) - 0.9).abs() < 1e-9);
    assert!((score(-100.0) - 0.3).abs() < 1e-9);
}

#[test]
fn score_in_the_middle_of_the_band() {
    // Half way between -13 and -2.
    assert_eq!(logprob_to_score(-7_500_000_000), 600_000_000);
}

#[test]
fn requests_carry_context_and_grammar() {
    let latch = ScorerLatch::new();
    let req = latch.score_request("今日は", "天気").unwrap();
    assert_eq!(req.prompt, "今日は");
    assert_eq!(req.grammar, "root ::= \"天気\"");
    assert_eq!(req.n_predict, 10);
    assert!(req.cache_prompt);
    assert!(latch.score_request("今日は", "").is_none());
    assert!(latch.warm_request("").is_none());
    assert_eq!(latch.warm_request("今日は").unwrap().n_predict, 0);
}

#[test]
fn unreachable_server_is_not_asked_again() {
    let mut latch = ScorerLatch::new();
    assert_eq!(latch.settle(&ScoreReply::Unreachable), NEUTRAL_SCORE);
    assert!(latch.warned);
    assert!(latch.score_request("今日は", "天気").is_none());
    assert!(latch.warm_request("今日は").is_none());
}

#[test]
fn replies_are_averaged_over_tokens_with_text() {
    let mut latch = ScorerLatch::new();
    let tokens = vec![
        TokenLogprob { token: "天".to_string(), logprob: -7_000_000_000 },
        TokenLogprob { token: String::new(), logprob: -90_000_000_000 },
        TokenLogprob { token: "気".to_string(), logprob: -8_000_000_000 },
    ];
    assert_eq!(latch.settle(&ScoreReply::Tokens(tokens)), 600_000_000);
    assert!(!latch.warned);
    assert_eq!(latch.settle(&ScoreReply::Tokens(Vec::new())), NEUTRAL_SCORE);
}
