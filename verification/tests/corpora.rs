use agm_cli::corpora::tokens::estimate;
use agm_cli::corpora::wrap::wrap_for_target;
use agm_cli::corpora::{
    builtin_template, example_bank, padding_step, render_corpus, CorpusError, CorpusFlavor, CorpusOptions,
    CorpusTarget, PaddingStep,
};

fn opts(flavor: CorpusFlavor, target: CorpusTarget, min_tokens: Option<usize>, include_version: bool) -> CorpusOptions {
    CorpusOptions { flavor, target, min_tokens, include_version }
}

#[test]
fn test_builtin_template_non_empty_for_each_flavor() {
    for flavor in [CorpusFlavor::Full, CorpusFlavor::Standard, CorpusFlavor::GrammarOnly] {
        let tmpl = builtin_template(flavor);
        assert!(!tmpl.is_empty(), "{flavor:?} template must not be empty");
    }
}

#[test]
fn test_builtin_template_contains_agm_header() {
    for flavor in [CorpusFlavor::Full, CorpusFlavor::Standard, CorpusFlavor::GrammarOnly] {
        let tmpl = builtin_template(flavor);
        assert!(tmpl.contains("# AGM v1.2.0"), "{flavor:?} template must contain the AGM v1.2.0 header");
    }
}

#[test]
fn test_example_bank_has_at_least_12_entries() {
    assert!(example_bank().len() >= 12, "example bank must have at least 12 entries");
}

#[test]
fn test_render_corpus_no_padding_for_no_min_tokens() {
    let out = render_corpus(&opts(CorpusFlavor::GrammarOnly, CorpusTarget::Vanilla, None, false))
        .ok()
        .expect("render must succeed");
    assert!(out.body.contains("# AGM v1.2.0"));
    assert!(!out.body.contains("# Example: ex1"));
}

#[test]
fn test_render_corpus_meets_min_tokens_when_possible() {
    let out = render_corpus(&opts(CorpusFlavor::GrammarOnly, CorpusTarget::Vanilla, Some(1000), false))
        .ok()
        .expect("render must succeed when bank can cover budget");
    assert!(out.estimated_tokens >= 1000, "estimated_tokens ({}) must be >= min_tokens (1000)", out.estimated_tokens);
}

#[test]
fn test_render_corpus_returns_err_on_bank_exhaustion() {
    let result = render_corpus(&opts(CorpusFlavor::Full, CorpusTarget::Vanilla, Some(999_999), false));
    assert!(
        matches!(result, Err(CorpusError::BankExhausted { .. })),
        "must return BankExhausted when the bank cannot reach the budget"
    );
}

#[test]
fn test_render_corpus_full_exceeds_standard_in_tokens() {
    let full = render_corpus(&opts(CorpusFlavor::Full, CorpusTarget::Vanilla, None, false))
        .ok()
        .expect("full render must succeed");
    let standard = render_corpus(&opts(CorpusFlavor::Standard, CorpusTarget::Vanilla, None, false))
        .ok()
        .expect("standard render must succeed");
    assert!(
        full.estimated_tokens > standard.estimated_tokens,
        "full ({}) must have more tokens than standard ({})",
        full.estimated_tokens,
        standard.estimated_tokens
    );
}

#[test]
fn test_render_corpus_include_version_prepends_header() {
    let out = render_corpus(&opts(CorpusFlavor::GrammarOnly, CorpusTarget::Vanilla, None, true))
        .ok()
        .expect("render must succeed");
    assert!(out.body.contains("# AGM spec version: 1.2.0"), "body must contain the spec version header");
}

#[test]
fn test_render_corpus_estimated_tokens_computed_on_wrapped_body() {
    let out = render_corpus(&opts(CorpusFlavor::GrammarOnly, CorpusTarget::Anthropic, None, false))
        .ok()
        .expect("render must succeed");
    let recomputed = estimate(&out.body);
    assert_eq!(out.estimated_tokens, recomputed, "estimated_tokens must equal estimate() of the final body");
}

#[test]
fn test_full_tokens_at_least_1800() {
    let out = render_corpus(&opts(CorpusFlavor::Full, CorpusTarget::Vanilla, None, false))
        .ok()
        .expect("render must succeed");
    assert!(out.estimated_tokens >= 1800, "full corpus must have at least 1800 tokens, got {}", out.estimated_tokens);
}

#[test]
fn test_standard_tokens_at_most_1500() {
    let out = render_corpus(&opts(CorpusFlavor::Standard, CorpusTarget::Vanilla, None, false))
        .ok()
        .expect("render must succeed");
    assert!(out.estimated_tokens <= 1500, "standard corpus must have at most 1500 tokens, got {}", out.estimated_tokens);
}

#[test]
fn test_grammar_only_tokens_at_most_600() {
    let out = render_corpus(&opts(CorpusFlavor::GrammarOnly, CorpusTarget::Vanilla, None, false))
        .ok()
        .expect("render must succeed");
    assert!(out.estimated_tokens <= 600, "grammar-only corpus must have at most 600 tokens, got {}", out.estimated_tokens);
}

#[test]
fn test_anthropic_preamble_tokens_at_most_100() {
    let vanilla = render_corpus(&opts(CorpusFlavor::GrammarOnly, CorpusTarget::Vanilla, None, false))
        .ok()
        .expect("render must succeed");
    let anthropic = render_corpus(&opts(CorpusFlavor::GrammarOnly, CorpusTarget::Anthropic, None, false))
        .ok()
        .expect("render must succeed");
    let preamble_tokens = anthropic.estimated_tokens.saturating_sub(vanilla.estimated_tokens);
    assert!(preamble_tokens <= 100, "Anthropic preamble must add at most 100 tokens, added {preamble_tokens}");
}

#[test]
fn test_estimate_known_input() {
    let count = estimate("hello world");
    assert_eq!(count, 2, "expected 2 tokens for 'hello world', got {count}");
}

#[test]
fn test_estimate_empty() {
    assert_eq!(estimate(""), 0);
}

#[test]
fn test_estimate_caches_encoder() {
    let first = estimate("the quick brown fox");
    let second = estimate("the quick brown fox");
    assert_eq!(first, second, "encoder must be deterministic across calls");
    assert!(first > 0, "non-empty string must have at least one token");
}

#[test]
fn test_estimate_returns_nonzero_for_nonempty_string() {
    let count = estimate("AGM is a line-oriented format.");
    assert!(count > 0, "non-empty string must produce a positive token count");
}

#[test]
fn test_vanilla_is_identity() {
    let body = "# AGM v1.2.0 — Compact Reference\n\nSome content.".to_owned();
    let result = wrap_for_target(body.clone(), CorpusTarget::Vanilla);
    assert_eq!(result, body);
}

#[test]
fn test_anthropic_prepends_role() {
    let body = "# AGM v1.2.0 — Compact Reference\n".to_owned();
    let result = wrap_for_target(body.clone(), CorpusTarget::Anthropic);
    assert!(result.starts_with("You are an AGM-emitting assistant."), "Anthropic output must start with the role preamble");
    assert!(result.contains(&body), "Anthropic output must contain the original body");
}

#[test]
fn test_openai_prepends_tool_preference_role() {
    let body = "# AGM v1.2.0 — Compact Reference\n".to_owned();
    let result = wrap_for_target(body.clone(), CorpusTarget::OpenAi);
    assert!(result.starts_with("You are an AGM-emitting assistant."), "OpenAI output must start with the role preamble");
    assert!(result.contains("create_ticket"), "OpenAI preamble must mention the tool convention");
    assert!(result.contains(&body), "OpenAI output must contain the original body");
}

#[test]
fn test_anthropic_separator_before_body() {
    let result = wrap_for_target("BODY_CONTENT".to_owned(), CorpusTarget::Anthropic);
    assert!(result.contains("---\n\nBODY_CONTENT"));
}

#[test]
fn test_openai_separator_before_body() {
    let result = wrap_for_target("BODY_CONTENT".to_owned(), CorpusTarget::OpenAi);
    assert!(result.contains("---\n\nBODY_CONTENT"));
}

#[test]
fn test_padding_step_decisions() {
    assert_eq!(padding_step(10, 10, 0), PaddingStep::Enough);
    assert_eq!(padding_step(9, 10, 3), PaddingStep::Append(3));
    assert_eq!(padding_step(9, 10, 12), PaddingStep::Exhausted);
}

#[test]
fn test_padding_appends_examples_in_bank_order() {
    let out = render_corpus(&opts(CorpusFlavor::GrammarOnly, CorpusTarget::Vanilla, Some(1000), false))
        .ok()
        .expect("render must succeed");
    let first = out.body.find("# Example: ex1\n").expect("ex1 is appended");
    let second = out.body.find("# Example: ex2\n").expect("ex2 is appended");
    assert!(first < second);
    assert!(out.body.contains("\n\n---\n\n# Example: ex1\n\n```agm\n"));
}

#[test]
fn test_bank_exhausted_reports_target_and_count() {
    match render_corpus(&opts(CorpusFlavor::GrammarOnly, CorpusTarget::Vanilla, Some(999_999), false)) {
        Err(CorpusError::BankExhausted { target, actual }) => {
            assert_eq!(target, 999_999);
            assert!(actual > 0 && actual < 999_999);
            let e = CorpusError::BankExhausted { target, actual };
            assert_eq!(
                e.message(),
                format!("token budget {target} unreachable; bank exhausted at {actual} tokens. Lower --min-tokens or add examples.")
            );
        }
        _ => panic!("expected BankExhausted"),
    }
}

#[test]
fn test_min_tokens_met_without_padding_adds_nothing() {
    let plain = render_corpus(&opts(CorpusFlavor::Full, CorpusTarget::Vanilla, None, false)).ok().unwrap();
    let budget = render_corpus(&opts(CorpusFlavor::Full, CorpusTarget::Vanilla, Some(10), false)).ok().unwrap();
    assert_eq!(plain.body, budget.body);
    assert_eq!(plain.flavor, CorpusFlavor::Full);
    assert_eq!(plain.target, CorpusTarget::Vanilla);
}
