use agm_cli::pattern::glob_matches;
use agm_cli::bench::cassette::CassetteMode;
use agm_cli::bench::report::{CaseResult, ComplianceBucket};
use agm_cli::commands::corpus::{
    count_line, error_exit_code, error_line, flavor_str, target_str, CorpusFlavorArg, CorpusTargetArg,
};
use agm_cli::commands::ingest::{
    ingest_error_exit_code, ingest_error_line, parse_node_type, IngestErrorKind, NodeType,
};
use agm_cli::commands::schema_cmd::{all_types, schema_dir, schema_file_path, DialectArg, SchemaFormatArg};
use agm_cli::commands::retry::retry_targets;
use agm_cli::commands::run::{dry_run_lines, run_exit_code, status_icon};
use agm_cli::runtime::graph::DepGraph;
use agm_cli::runtime::model::{AgmFile, Header, Node};
use agm_cli::runtime::scheduler::{NodeResult, RunReport};
use agm_cli::runtime::state::{ExecutionStatus, ExecutionTracker, NodeState};
use agm_cli::commands::context::token_count_lines;
use agm_cli::runtime::context::{BuiltContext, ContextSection, ContextSource};
use agm_cli::commands::export::{export_format_supported, parse_export_format, ExportFormat};
use agm_cli::commands::llm_bench::{
    bench_exit_code, build_cassette_mode, cost_only_tokens, default_key_var, endpoint_var, is_replay_only, version_header,
    ProviderKind,
};
use agm_cli::commands::status::{completed_percent, status_exit_code};
use agm_cli::corpora::{CorpusError, CorpusFlavor, CorpusTarget};
use agm_cli::runtime::memory::GcReport;

#[test]
fn test_exit_code_all_completed() {
    let (completed, skipped, failed, blocked, total) = (2, 0, 0, 0, 2usize);
    assert_eq!(status_exit_code(completed, skipped, failed, blocked, total), 0);
}

#[test]
fn test_exit_code_any_failed() {
    let (completed, skipped, failed, blocked, total) = (1, 0, 1, 0, 2usize);
    assert_eq!(status_exit_code(completed, skipped, failed, blocked, total), 1);
}

#[test]
fn test_exit_code_in_progress() {
    let (completed, skipped, failed, blocked, total) = (1, 0, 0, 0, 3usize);
    assert_eq!(status_exit_code(completed, skipped, failed, blocked, total), 2);
}

#[test]
fn test_exit_code_blocked_is_failure() {
    assert_eq!(status_exit_code(1, 1, 0, 1, 3), 1);
    assert_eq!(status_exit_code(1, 2, 0, 0, 3), 0);
}

#[test]
fn test_completed_percent_rounds_down() {
    assert_eq!(completed_percent(1, 3), 33);
    assert_eq!(completed_percent(0, 0), 0);
    assert_eq!(completed_percent(2, 2), 100);
}

#[test]
fn test_export_sql_unimplemented() {
    let format = "sql";
    assert!(!export_format_supported(format));
}

#[test]
fn test_export_format_sql_unimplemented() {
    let format = "sql";
    assert!(!export_format_supported(format));
    assert_eq!(parse_export_format(format), Some(ExportFormat::Sql));
}

#[test]
fn test_export_formats_json_and_agm_supported() {
    assert!(export_format_supported("json"));
    assert!(export_format_supported("agm"));
    assert!(!export_format_supported("yaml"));
    assert_eq!(parse_export_format("yaml"), None);
}

#[test]
fn test_gc_removes_expired() {
    let report = GcReport { expired_removed: 2, orphan_removed: 1 };
    assert_eq!(report.expired_removed + report.orphan_removed, 3);
}

#[test]
fn test_retry_empty_result_succeeds() {
    let nodes_to_retry: Vec<String> = vec![];
    assert!(nodes_to_retry.is_empty());
}

#[test]
fn test_context_token_count_mode() {
    let token_estimate = 100usize;
    let sections: Vec<(&str, usize)> = vec![("summary", 200), ("code", 300)];
    assert_eq!(token_estimate, 100);
    assert_eq!(sections.len(), 2);
}

#[test]
fn test_context_output_contains_node_id() {
    let node_id = "build";
    let output = format!("{{\"node_id\":\"{}\"}}", node_id);
    assert!(output.contains(node_id));
}

#[test]
fn test_corpus_args_map_to_core() {
    assert_eq!(CorpusFlavorArg::Full.to_core(), CorpusFlavor::Full);
    assert_eq!(CorpusFlavorArg::Standard.to_core(), CorpusFlavor::Standard);
    assert_eq!(CorpusFlavorArg::GrammarOnly.to_core(), CorpusFlavor::GrammarOnly);
    assert_eq!(CorpusTargetArg::Anthropic.to_core(), CorpusTarget::Anthropic);
    assert_eq!(CorpusTargetArg::OpenAi.to_core(), CorpusTarget::OpenAi);
    assert_eq!(CorpusTargetArg::Vanilla.to_core(), CorpusTarget::Vanilla);
}

#[test]
fn test_corpus_names_and_exit_codes() {
    assert_eq!(flavor_str(CorpusFlavor::GrammarOnly), "grammar-only");
    assert_eq!(target_str(CorpusTarget::OpenAi), "openai");
    let e = CorpusError::BankExhausted { target: 5000, actual: 2400 };
    assert_eq!(error_exit_code(&e), 1);
    assert_eq!(
        error_line(&e),
        "error: cannot reach 5000-token target; bank exhausted at 2400 tokens. Lower --min-tokens or add examples."
    );
    assert_eq!(error_exit_code(&CorpusError::Io("disk".into())), 2);
    assert_eq!(count_line(2509), "2509\n");
}

#[test]
fn test_build_cassette_mode_flags() {
    assert!(matches!(build_cassette_mode(None, true, false), CassetteMode::Disabled));
    assert!(matches!(build_cassette_mode(Some("d".into()), false, true), CassetteMode::Disabled));
    assert!(matches!(build_cassette_mode(Some("d".into()), true, false), CassetteMode::Record(ref p) if p == "d"));
    let replay = build_cassette_mode(Some("d".into()), false, false);
    assert!(matches!(replay, CassetteMode::Replay(ref p) if p == "d"));
    assert!(is_replay_only(&replay, false));
    assert!(!is_replay_only(&replay, true));
}

#[test]
fn test_provider_env_var_names() {
    assert_eq!(default_key_var(ProviderKind::Messages), "AGM_MESSAGES_KEY");
    assert_eq!(default_key_var(ProviderKind::Chat), "AGM_CHAT_KEY");
    assert_eq!(endpoint_var(ProviderKind::Chat), "AGM_CHAT_ENDPOINT");
}

fn result(bucket: ComplianceBucket) -> CaseResult {
    CaseResult { case_id: "ticket/a".into(), bucket, tokens_in: 1, tokens_out: 1, latency_ms: 1, notes: vec![] }
}

#[test]
fn test_bench_exit_code() {
    let all_pass = vec![result(ComplianceBucket::Pass), result(ComplianceBucket::NormalizeFixable)];
    assert_eq!(bench_exit_code(&all_pass, 2), 0);
    let one_fail = vec![result(ComplianceBucket::Pass), result(ComplianceBucket::Fail)];
    assert_eq!(bench_exit_code(&one_fail, 2), 1);
    let all_error = vec![result(ComplianceBucket::Error), result(ComplianceBucket::Error)];
    assert_eq!(bench_exit_code(&all_error, 2), 2);
    let error_and_fail = vec![result(ComplianceBucket::Error), result(ComplianceBucket::Fail)];
    assert_eq!(bench_exit_code(&error_and_fail, 2), 1);
    assert_eq!(bench_exit_code(&vec![], 0), 0);
}

#[test]
fn test_ingest_parse_node_type() {
    assert_eq!(parse_node_type("ticket").unwrap(), NodeType::Ticket);
    assert_eq!(parse_node_type("anti-pattern").unwrap(), NodeType::AntiPattern);
    assert_eq!(parse_node_type("anti_pattern").unwrap().as_str(), "anti_pattern");
    let e = parse_node_type("Ticket").unwrap_err();
    assert!(e.starts_with("unknown node type `Ticket`; supported: facts, rules,"));
    assert!(e.ends_with("orchestration, ticket"));
}

#[test]
fn test_ingest_error_exit_codes_and_lines() {
    assert_eq!(ingest_error_exit_code(&IngestErrorKind::NotAnObject), 2);
    assert_eq!(ingest_error_exit_code(&IngestErrorKind::JsonParse("x".to_owned())), 2);
    assert_eq!(ingest_error_exit_code(&IngestErrorKind::MissingId), 3);
    assert_eq!(ingest_error_exit_code(&IngestErrorKind::Build("x".to_owned())), 1);
    let batch = IngestErrorKind::Batch(vec![(0, "a".to_owned()), (2, "b".to_owned())]);
    assert_eq!(ingest_error_exit_code(&batch), 1);
    assert_eq!(ingest_error_line(&batch), "error: batch ingest failed (2 error(s)):");
    assert_eq!(ingest_error_line(&IngestErrorKind::SchemaCheck("m".to_owned())), "error: schema check failed: m");
}

#[test]
fn test_schema_all_paths() {
    let types = all_types();
    assert_eq!(types.len(), 11);
    assert_eq!(types[8], NodeType::AntiPattern);
    assert_eq!(schema_dir("out", DialectArg::Vanilla), "out");
    assert_eq!(schema_dir("out/", DialectArg::OpenAiTool), "out/openai_tool");
    let dir = schema_dir("schemas", DialectArg::AnthropicToolUse);
    assert_eq!(schema_file_path(&dir, NodeType::Ticket, SchemaFormatArg::Yaml), "schemas/anthropic_tool_use/ticket.yaml");
    assert_eq!(schema_file_path("s", NodeType::AntiPattern, SchemaFormatArg::JsonSchema), "s/anti_pattern.json");
}

fn run_report(executed: usize, succeeded: usize, failed: usize) -> RunReport {
    RunReport {
        total_nodes: executed,
        executed,
        succeeded,
        failed,
        skipped: 0,
        blocked: 0,
        duration_ms: 2300,
        node_results: vec![],
    }
}

fn pending(id: &str) -> NodeResult {
    NodeResult {
        node_id: id.to_owned(),
        status: ExecutionStatus::Pending,
        agent: "shell".to_owned(),
        duration_ms: 0,
        output: None,
    }
}

#[test]
fn test_exit_code_success() {
    assert_eq!(run_exit_code(&run_report(2, 2, 0)), 0);
}

#[test]
fn test_exit_code_failure() {
    assert_eq!(run_exit_code(&run_report(2, 1, 1)), 1);
    let mut blocked = run_report(2, 2, 0);
    blocked.blocked = 1;
    assert_eq!(run_exit_code(&blocked), 1);
}

#[test]
fn test_print_dry_run_format() {
    let mut report = run_report(0, 0, 0);
    report.total_nodes = 2;
    report.node_results = vec![pending("setup"), pending("build")];
    assert_eq!(
        dry_run_lines(&report),
        vec!["Dry run: would execute 2 nodes in order:", "  1. setup", "  2. build"]
    );
    assert_eq!(status_icon(ExecutionStatus::Completed), "[ok]");
    assert_eq!(status_icon(ExecutionStatus::Failed), "[FAIL]");
    assert_eq!(status_icon(ExecutionStatus::Blocked), "[--]");
}

fn tracker_with(statuses: Vec<(&str, ExecutionStatus)>) -> ExecutionTracker {
    let nodes: Vec<Node> = statuses
        .iter()
        .map(|(id, _)| Node {
            id: id.to_string(),
            summary: String::new(),
            depends: None,
            agent_context: None,
            verify: None,
            code: None,
            code_blocks: None,
            memory: None,
        })
        .collect();
    let file = AgmFile { header: Header { package: "p".to_owned(), version: "1".to_owned() }, nodes };
    let graph = DepGraph::build(&file);
    let mut state = ExecutionTracker::initialize(&file, &graph, "run-test");
    for (id, st) in statuses {
        let mut ns = NodeState::default();
        ns.execution_status = st;
        state.nodes.insert(id.to_owned(), ns);
    }
    ExecutionTracker::from_state("t.agm", state, graph)
}

#[test]
fn test_retry_failed_node_transitions_to_ready() {
    let mut t = tracker_with(vec![("a", ExecutionStatus::Failed), ("b", ExecutionStatus::Completed)]);
    let targets = retry_targets(&t, Some("a"), false).unwrap();
    assert_eq!(targets, vec!["a"]);
    for id in &targets {
        assert!(t.retry(id).is_ok());
    }
    assert_eq!(t.node_state("a").unwrap().execution_status, ExecutionStatus::Ready);
}

#[test]
fn test_retry_non_failed_node_rejected() {
    let t = tracker_with(vec![("a", ExecutionStatus::Failed), ("b", ExecutionStatus::Completed)]);
    assert_eq!(retry_targets(&t, Some("b"), false).unwrap_err(), "error: node 'b' is in state 'completed', not 'failed'");
    assert_eq!(retry_targets(&t, Some("zz"), false).unwrap_err(), "error: node 'zz' not found");
    assert_eq!(retry_targets(&t, None, false).unwrap_err(), "error: specify --node <id> or --all-failed");
}

#[test]
fn test_retry_all_failed_lists_failed_nodes() {
    let t = tracker_with(vec![
        ("c", ExecutionStatus::Failed),
        ("a", ExecutionStatus::Failed),
        ("b", ExecutionStatus::Completed),
    ]);
    assert_eq!(retry_targets(&t, None, true).unwrap(), vec!["a", "c"]);
}

#[test]
fn test_context_token_count_lines() {
    let built = BuiltContext {
        prompt: "p".to_owned(),
        token_estimate: 100,
        sections: vec![
            ContextSection { name: "summary".to_owned(), content: "x".repeat(200), source: ContextSource::SystemHint },
            ContextSection { name: "code".to_owned(), content: "é".repeat(3), source: ContextSource::SystemHint },
        ],
    };
    assert_eq!(
        token_count_lines(&built),
        vec!["Token estimate: 100", "Sections: 2", "  summary (200 chars)", "  code (6 chars)"]
    );
}

#[test]
fn test_version_header_needs_both_parts() {
    assert_eq!(version_header(Some("v".to_owned()), Some("1".to_owned())), Some(("v".to_owned(), "1".to_owned())));
    assert_eq!(version_header(Some("v".to_owned()), None), None);
    assert_eq!(version_header(Some(String::new()), Some("1".to_owned())), None);
    assert_eq!(version_header(None, Some("1".to_owned())), None);
}

#[test]
fn test_cost_only_tokens() {
    let prompts = vec!["x".repeat(10), "y".repeat(7)];
    assert_eq!(cost_only_tokens(&prompts), (4, 1024));
    assert_eq!(cost_only_tokens(&vec![]), (0, 0));
}

#[test]
fn test_case_glob_matching() {
    assert!(glob_matches("ticket/*", "ticket/a"));
    assert!(!glob_matches("ticket/*", "workflow/a"));
    assert!(!glob_matches("ticket/*", "ticket/a/b"));
    assert!(glob_matches("*/a", "workflow/a"));
    assert!(!glob_matches("*/a", "workflow/b"));
    assert!(glob_matches("a.b", "a.b"));
    assert!(!glob_matches("a.b", "axb"));
    assert!(glob_matches("(x)", "(x)"));
}
