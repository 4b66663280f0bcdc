use agm_cli::bench::cassette::{
    accept_cassette, cassette_key, cassette_path, envelope_for, join_path, response_from_envelope, secs_from_nanos,
    timestamp_from_secs, CassetteEnvelope, CassetteMode,
};
use agm_cli::bench::provider::{
    chat_raw_text, extract_agm_text, extract_from_messages_content, is_success_status, status_error, try_strip_fence,
    ChatChoice, MessagesBlock, ProviderError, ProviderResponse, AGM_SYSTEM_PROMPT, DEFAULT_MAX_TOKENS_OUT,
};
use agm_cli::bench::report::{case_row_markdown, case_text, CaseResult, ComplianceBucket};
use agm_cli::bench::runner::{
    after_cassette_read, fetch_start, AfterRead, FetchStart,
    bench_counts, compliance_bucket, evaluate_checks, expected_type_ok, normalized_note, parse_error_result,
    provider_error_result, required_fields_ok, EvalContext,
};
use agm_cli::keyed::KeyedMap;

#[test]
fn test_extract_agm_text_no_fence() {
    let input = "  agm\npackage: test\nversion: 0.1.0  ";
    assert_eq!(extract_agm_text(input), "agm\npackage: test\nversion: 0.1.0");
}

#[test]
fn test_extract_agm_text_with_agm_fence() {
    let input = "```agm\nagm\npackage: test\nversion: 0.1.0\n```";
    assert_eq!(extract_agm_text(input), "agm\npackage: test\nversion: 0.1.0");
}

#[test]
fn test_extract_agm_text_with_plain_fence() {
    let input = "```\nagm\npackage: test\nversion: 0.1.0\n```";
    assert_eq!(extract_agm_text(input), "agm\npackage: test\nversion: 0.1.0");
}

#[test]
fn test_try_strip_fence_needs_newline_and_close() {
    assert_eq!(try_strip_fence("```agm no newline```", "```agm"), None);
    assert_eq!(try_strip_fence("```agm\nunclosed", "```agm"), None);
    assert_eq!(try_strip_fence("text", "```"), None);
    assert_eq!(try_strip_fence("```rust\n fn x() {} \n```", "```"), Some("fn x() {}".to_owned()));
}

#[test]
fn test_extract_agm_text_unclosed_fence_is_trimmed_whole() {
    assert_eq!(extract_agm_text("\t```agm\nnode a\n"), "```agm\nnode a");
}

#[test]
fn test_compliance_bucket_display() {
    assert_eq!(ComplianceBucket::Pass.to_string(), "PASS");
    assert_eq!(ComplianceBucket::NormalizeFixable.to_string(), "NORM_FIXABLE");
    assert_eq!(ComplianceBucket::Fail.to_string(), "FAIL");
    assert_eq!(ComplianceBucket::Error.to_string(), "ERROR");
}

#[test]
fn test_compliance_bucket_is_compliant() {
    assert!(ComplianceBucket::Pass.is_compliant());
    assert!(ComplianceBucket::NormalizeFixable.is_compliant());
    assert!(!ComplianceBucket::SchemaOnly.is_compliant());
    assert!(!ComplianceBucket::ValidateOnly.is_compliant());
    assert!(!ComplianceBucket::Fail.is_compliant());
    assert!(!ComplianceBucket::Error.is_compliant());
}

#[test]
fn test_key_hash_deterministic() {
    let k1 = cassette_key("messages", "demo-m1", "hello world");
    let k2 = cassette_key("messages", "demo-m1", "hello world");
    assert_eq!(k1, k2);
    assert_eq!(k1.len(), 64);
}

#[test]
fn test_key_hash_differs_on_different_inputs() {
    let k1 = cassette_key("messages", "demo-m1", "prompt A");
    let k2 = cassette_key("chat", "demo-m1", "prompt A");
    let k3 = cassette_key("messages", "demo-m1", "prompt B");
    assert_ne!(k1, k2);
    assert_ne!(k1, k3);
}

#[test]
fn test_key_hash_of_known_input() {
    // SHA-256 of the bytes "a:b:c", in lowercase hexadecimal
    assert_eq!(cassette_key("a", "b", "c"), "b0ee04f880c4ff4261479e2e7822b7410aee4c7159f4185ad5b0d88a312b495e");
}

#[test]
fn test_cassette_path_layout() {
    assert_eq!(cassette_path("/tmp/c", "messages", "demo-m1", "ticket/a"), "/tmp/c/v1.0.0/messages/demo-m1/ticket_a.json");
    assert_eq!(cassette_path("/tmp/c/", "chat", "m", "x"), "/tmp/c/v1.0.0/chat/m/x.json");
    assert_eq!(cassette_path("", "chat", "m", "x"), "v1.0.0/chat/m/x.json");
}

#[test]
fn test_join_path_absolute_part_replaces() {
    assert_eq!(join_path("a/b", "/c"), "/c");
    assert_eq!(join_path("a/b", "c"), "a/b/c");
}

fn envelope(hash: &str) -> CassetteEnvelope {
    CassetteEnvelope {
        request_hash: hash.into(),
        prompt_preview: "prompt".into(),
        response_text: "data".into(),
        tokens_in: 10,
        tokens_out: 10,
        latency_ms: 100,
        recorded_at: "2026-04-20T00:00:00Z".into(),
    }
}

#[test]
fn test_replay_hash_mismatch_returns_none() {
    assert!(accept_cassette(envelope("abc123"), "different_hash").is_none());
    let kept = accept_cassette(envelope("abc123"), "abc123").expect("same hash");
    let resp = response_from_envelope(kept);
    assert_eq!(resp.raw_text, "data");
    assert_eq!(resp.tokens_in, 10);
    assert_eq!(resp.latency_ms, 100);
}

#[test]
fn test_envelope_preview_is_first_120_chars() {
    let prompt: String = "é".repeat(130);
    let resp = ProviderResponse { raw_text: "agm node content".into(), tokens_in: 100, tokens_out: 50, latency_ms: 1000 };
    let env = envelope_for("h".into(), &prompt, &resp, "t".into());
    assert_eq!(env.prompt_preview.chars().count(), 120);
    assert_eq!(env.response_text, "agm node content");
    assert_eq!(env.tokens_out, 50);
}

#[test]
fn test_timestamp_from_secs_format() {
    assert_eq!(timestamp_from_secs(0), "2026-01-01T00000+00:00:00Z");
    assert_eq!(timestamp_from_secs(86400 * 3 + 3600 * 5 + 60 * 7 + 9), "2026-01-01T00003+05:07:09Z");
}

#[test]
fn test_provider_error_messages() {
    assert_eq!(ProviderError::Timeout(30).message(), "request timed out after 30s");
    assert_eq!(
        ProviderError::HttpError { status: 404, body: "nope".into() }.message(),
        "provider returned HTTP 404: nope"
    );
    assert_eq!(ProviderError::CassetteMiss.message(), "cassette miss in Replay mode");
    assert_eq!(ProviderError::RateLimited.message(), "rate limited — try again later");
}

fn result(id: &str, bucket: ComplianceBucket, tin: u32, tout: u32, ms: u64, notes: Vec<&str>) -> CaseResult {
    CaseResult {
        case_id: id.to_owned(),
        bucket,
        tokens_in: tin,
        tokens_out: tout,
        latency_ms: ms,
        notes: notes.into_iter().map(str::to_owned).collect(),
    }
}

#[test]
fn test_compliance_bucket_decision_table() {
    assert_eq!(compliance_bucket(true, true, true, true, false), ComplianceBucket::Pass);
    assert_eq!(compliance_bucket(true, true, true, true, true), ComplianceBucket::NormalizeFixable);
    assert_eq!(compliance_bucket(false, true, true, true, false), ComplianceBucket::SchemaOnly);
    assert_eq!(compliance_bucket(true, false, true, true, false), ComplianceBucket::ValidateOnly);
    assert_eq!(compliance_bucket(true, true, false, true, false), ComplianceBucket::Fail);
    assert_eq!(compliance_bucket(false, false, true, true, true), ComplianceBucket::Fail);
}

#[test]
fn test_evaluate_checks_notes_and_bucket() {
    let ctx = EvalContext {
        tokens_in: 10,
        tokens_out: 20,
        latency_ms: 30,
        notes: vec!["normalized 2 field(s)".to_owned()],
        was_normalized: true,
    };
    let r = evaluate_checks("ticket/a", ctx, &vec!["V001".to_owned(), "V007".to_owned()], true, false, true);
    assert_eq!(r.bucket, ComplianceBucket::SchemaOnly);
    assert_eq!(r.notes, vec!["normalized 2 field(s)", "validate: V001", "validate: V007", "missing required fields"]);
    assert_eq!((r.tokens_in, r.tokens_out, r.latency_ms), (10, 20, 30));
    let ctx = EvalContext { tokens_in: 1, tokens_out: 2, latency_ms: 3, notes: vec![], was_normalized: true };
    let r = evaluate_checks("x", ctx, &vec![], true, true, true);
    assert_eq!(r.bucket, ComplianceBucket::NormalizeFixable);
    assert!(r.notes.is_empty());
    assert_eq!(normalized_note(2), "normalized 2 field(s)");
}

#[test]
fn test_error_results() {
    let r = provider_error_result("c", &ProviderError::CassetteMiss);
    assert_eq!(r.bucket, ComplianceBucket::Error);
    assert_eq!(r.notes, vec!["provider error: cassette miss in Replay mode"]);
    let r = parse_error_result("c", 5, 6, 7, &vec!["bad header".to_owned(), "bad node".to_owned()]);
    assert_eq!(r.notes, vec!["parse error: bad header; bad node"]);
    assert_eq!(r.tokens_in, 5);
}

#[test]
fn test_required_fields_and_expected_type() {
    let mut fields: KeyedMap<Option<String>> = KeyedMap::new();
    fields.insert("priority".to_owned(), Some("high".to_owned()));
    fields.insert("tags".to_owned(), None);
    let req = vec![("priority".to_owned(), Some("high".to_owned())), ("tags".to_owned(), None)];
    assert!(required_fields_ok(&req, Some(&fields)));
    assert!(!required_fields_ok(&req, None));
    assert!(required_fields_ok(&vec![], None));
    let wrong = vec![("priority".to_owned(), Some("low".to_owned()))];
    assert!(!required_fields_ok(&wrong, Some(&fields)));
    let typed = vec![("tags".to_owned(), Some("x".to_owned()))];
    assert!(!required_fields_ok(&typed, Some(&fields)));
    let missing = vec![("owner".to_owned(), None)];
    assert!(!required_fields_ok(&missing, Some(&fields)));
    assert!(expected_type_ok(&None, None));
    assert!(expected_type_ok(&Some("ticket".to_owned()), Some("ticket")));
    assert!(!expected_type_ok(&Some("ticket".to_owned()), Some("rule")));
    assert!(!expected_type_ok(&Some("ticket".to_owned()), None));
}

#[test]
fn test_bench_counts() {
    let results = vec![
        result("a", ComplianceBucket::Pass, 10, 1, 5, vec![]),
        result("b", ComplianceBucket::NormalizeFixable, 20, 2, 5, vec![]),
        result("c", ComplianceBucket::SchemaOnly, 30, 3, 5, vec![]),
        result("d", ComplianceBucket::ValidateOnly, 40, 4, 5, vec![]),
        result("e", ComplianceBucket::Error, 0, 0, 0, vec![]),
    ];
    let c = bench_counts(&results);
    assert_eq!((c.total, c.passed, c.compliant, c.schema_pass, c.validate_pass), (5, 1, 2, 3, 3));
    assert_eq!((c.tokens_in_total, c.tokens_out_total), (100, 10));
}

#[test]
fn test_case_text_and_markdown_row() {
    let r = result("ticket/a", ComplianceBucket::Pass, 12, 34, 56, vec!["n1", "n2"]);
    assert_eq!(
        case_text(&r),
        format!("  {:<24}  {:<14}  (12 in, 34 out, 56 ms)\n    note: n1\n    note: n2\n", "ticket/a", "PASS")
    );
    assert_eq!(case_row_markdown(&r), "| ticket/a | PASS | 12 | 34 | 56 | n1; n2 |\n");
    let long = result(&"x".repeat(30), ComplianceBucket::NormalizeFixable, 0, 0, 0, vec![]);
    assert_eq!(case_text(&long), format!("  {}  NORM_FIXABLE    (0 in, 0 out, 0 ms)\n", "x".repeat(30)));
}

#[test]
fn test_messages_tool_use_response_parses() {
    let blocks = vec![
        MessagesBlock::Text("```agm\nignored\n```".to_owned()),
        MessagesBlock::ToolUse("{\n  \"node\": \"x\"\n}".to_owned()),
    ];
    assert_eq!(extract_from_messages_content(&blocks).unwrap(), "{\n  \"node\": \"x\"\n}");
    let text_only = vec![MessagesBlock::Other, MessagesBlock::Text("```agm\nagm\n```".to_owned())];
    assert_eq!(extract_from_messages_content(&text_only).unwrap(), "agm");
    match extract_from_messages_content(&vec![MessagesBlock::Other]) {
        Err(e) => assert_eq!(e.message(), "could not parse provider response: response contained no text or tool_use block"),
        Ok(_) => panic!("no usable block"),
    }
}

#[test]
fn test_chat_raw_text_prefers_tool_call() {
    let c = ChatChoice { content: Some("```agm\nbody\n```".to_owned()), tool_call_arguments: None };
    assert_eq!(chat_raw_text(Some(c)).unwrap(), "body");
    let c = ChatChoice { content: Some("c".to_owned()), tool_call_arguments: Some(vec!["{}".to_owned()]) };
    assert_eq!(chat_raw_text(Some(c)).unwrap(), "{}");
    let c = ChatChoice { content: Some("```agm\nraw\n```".to_owned()), tool_call_arguments: Some(vec![]) };
    assert_eq!(chat_raw_text(Some(c)).unwrap(), "```agm\nraw\n```");
    assert!(chat_raw_text(None).is_err());
}

#[test]
fn test_http_status_classification() {
    assert!(is_success_status(200));
    assert!(is_success_status(204));
    assert!(!is_success_status(301));
    assert!(matches!(status_error(401, "no".to_owned()), ProviderError::Auth(b) if b == "no"));
    assert!(matches!(status_error(403, String::new()), ProviderError::Auth(_)));
    assert!(matches!(status_error(429, String::new()), ProviderError::RateLimited));
    assert!(matches!(status_error(500, "x".to_owned()), ProviderError::HttpError { status: 500, .. }));
    assert_eq!(DEFAULT_MAX_TOKENS_OUT, 4096);
    assert!(AGM_SYSTEM_PROMPT.starts_with("You are an expert at generating AGM"));
}

#[test]
fn test_fetch_plan_per_mode() {
    assert!(matches!(fetch_start(&CassetteMode::Disabled), FetchStart::Live { record: false }));
    assert!(matches!(fetch_start(&CassetteMode::Record("d".to_owned())), FetchStart::Live { record: true }));
    assert!(matches!(fetch_start(&CassetteMode::Replay("d".to_owned())), FetchStart::ReadCassette));
    assert!(matches!(fetch_start(&CassetteMode::RecordOrReplay("d".to_owned())), FetchStart::ReadCassette));
}

#[test]
fn test_after_cassette_read() {
    let replay = CassetteMode::Replay("d".to_owned());
    let either = CassetteMode::RecordOrReplay("d".to_owned());
    match after_cassette_read(&replay, Ok(Some(envelope("h")))) {
        AfterRead::Done(Ok(r)) => assert_eq!((r.raw_text.as_str(), r.tokens_in, r.latency_ms), ("data", 10, 100)),
        _ => panic!("hit replays"),
    }
    assert!(matches!(after_cassette_read(&replay, Ok(None)), AfterRead::Done(Err(ProviderError::CassetteMiss))));
    assert!(matches!(
        after_cassette_read(&replay, Err("bad json".to_owned())),
        AfterRead::Done(Err(ProviderError::ParseResponse(m))) if m == "bad json"
    ));
    assert!(matches!(after_cassette_read(&either, Ok(None)), AfterRead::LiveAndRecord));
    assert!(matches!(after_cassette_read(&either, Err("x".to_owned())), AfterRead::LiveAndRecord));
}

#[test]
fn test_secs_from_nanos_truncates_and_clamps() {
    assert_eq!(secs_from_nanos(-1), 0);
    assert_eq!(secs_from_nanos(0), 0);
    assert_eq!(secs_from_nanos(1_500_000_000), 1);
    assert_eq!(secs_from_nanos(i128::MAX), u64::MAX);
}
